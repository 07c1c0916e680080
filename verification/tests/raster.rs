use hane::geom::Point;
use hane::geom::Real;
use hane::path::boolean::FillRule;
use hane::raster::clip::Rows;
use hane::raster::fill::build_edges;
use hane::raster::fill::spans;
use hane::raster::fill::Color;
use hane::raster::fill::Edge;
use hane::raster::fill::FlatEl;
use hane::raster::fill::Pixmap;
use hane::raster::paint::dither;
use hane::raster::paint::sample;
use hane::raster::paint::Paint;
use hane::raster::paint::Ramp;
use hane::raster::paint::Stop;
use hane::raster::scene::BlendMode;
use hane::raster::scene::Draw;
use hane::raster::scene::Node;
use hane::raster::scene::Scene;

fn num(v: f64) -> Real {
    Real::from_bits(v.to_bits())
}

fn p(x: f64, y: f64) -> Point {
    Point::new(num(x), num(y))
}

#[test]
fn the_dither_matrix_is_a_permutation() {
    const BAYER: [[i32; 8]; 8] = [
        [0, 32, 8, 40, 2, 34, 10, 42],
        [48, 16, 56, 24, 50, 18, 58, 26],
        [12, 44, 4, 36, 14, 46, 6, 38],
        [60, 28, 52, 20, 62, 30, 54, 22],
        [3, 35, 11, 43, 1, 33, 9, 41],
        [51, 19, 59, 27, 49, 17, 57, 25],
        [15, 47, 7, 39, 13, 45, 5, 37],
        [63, 31, 55, 23, 61, 29, 53, 21],
    ];
    let mut seen = [false; 64];
    let mut sum = 0;
    for y in 0..8u32 {
        for x in 0..8u32 {
            let v = (dither(x, y) + 63) / 2;
            assert_eq!(v, BAYER[y as usize][x as usize]);
            assert!(!seen[v as usize], "{v} appears twice");
            seen[v as usize] = true;
            sum += dither(x, y);
        }
    }
    assert!(seen.iter().all(|&s| s));
    // The offsets are symmetric about zero, so dithering does not brighten or
    // darken a flat area.
    assert_eq!(sum, 0);
    assert_eq!(dither(9, 17), dither(1, 1));
}

const RED: Color = Color { r: 255, g: 0, b: 0, a: 255 };
const BLUE: Color = Color { r: 0, g: 0, b: 255, a: 255 };

fn stop(offset: f64, color: Color) -> Stop {
    Stop { offset: num(offset), color }
}

#[test]
fn a_ramp_is_its_end_stops_outside_and_two_stops_inside() {
    let stops = vec![stop(0.25, RED), stop(0.75, BLUE)];
    assert_eq!(sample(&stops, num(0.0)), Ramp::Exactly(RED));
    assert_eq!(sample(&stops, num(0.25)), Ramp::Exactly(RED));
    assert_eq!(sample(&stops, num(0.5)), Ramp::Between(stops[0], stops[1]));
    assert_eq!(sample(&stops, num(0.75)), Ramp::Exactly(BLUE));
    assert_eq!(sample(&stops, num(9.0)), Ramp::Exactly(BLUE));
}

#[test]
fn equal_offsets_are_a_hard_edge() {
    let stops = vec![stop(0.0, RED), stop(0.5, RED), stop(0.5, BLUE), stop(1.0, BLUE)];
    assert_eq!(sample(&stops, num(0.49)), Ramp::Between(stops[0], stops[1]));
    assert_eq!(sample(&stops, num(0.5)), Ramp::Between(stops[2], stops[3]));
}

#[test]
fn a_ramp_without_two_stops_is_harmless() {
    assert_eq!(sample(&Vec::new(), num(0.5)), Ramp::Nothing);
    assert_eq!(sample(&vec![stop(0.5, RED)], num(0.1)), Ramp::Exactly(RED));
    assert_eq!(sample(&vec![stop(0.5, RED)], num(f64::NAN)), Ramp::Exactly(RED));
    // Offsets out of order never give two stops to divide by zero between.
    let stops = vec![stop(0.0, RED), stop(-1.0, BLUE), stop(1.0, RED)];
    assert_eq!(sample(&stops, num(0.5)), Ramp::Between(stops[1], stops[2]));
}

#[test]
fn an_unclosed_subpath_gives_the_edges_of_a_closed_one() {
    let open = vec![
        FlatEl::MoveTo(p(0.0, 0.0)),
        FlatEl::LineTo(p(4.0, 0.0)),
        FlatEl::LineTo(p(4.0, 4.0)),
        FlatEl::LineTo(p(0.0, 4.0)),
    ];
    let edges = build_edges(&open);
    // The horizontal lines cross no sample line.
    assert_eq!(
        edges,
        vec![
            Edge { top: p(4.0, 0.0), bot: p(4.0, 4.0), dir: 1 },
            Edge { top: p(0.0, 0.0), bot: p(0.0, 4.0), dir: -1 },
        ]
    );
    let closed = vec![
        FlatEl::MoveTo(p(0.0, 0.0)),
        FlatEl::LineTo(p(4.0, 0.0)),
        FlatEl::LineTo(p(4.0, 4.0)),
        FlatEl::LineTo(p(0.0, 4.0)),
        FlatEl::ClosePath,
    ];
    assert_eq!(build_edges(&closed), edges);
}

#[test]
fn a_curve_is_its_polyline_and_bad_edges_are_dropped() {
    let path = vec![
        FlatEl::MoveTo(p(0.0, 0.0)),
        FlatEl::CurveTo(vec![p(0.0, 0.0), p(1.0, 2.0), p(2.0, 3.0)], p(2.0, 3.0)),
        FlatEl::LineTo(p(f64::NAN, 5.0)),
    ];
    let edges = build_edges(&path);
    assert_eq!(edges[0], Edge { top: p(0.0, 0.0), bot: p(1.0, 2.0), dir: 1 });
    assert_eq!(edges[1], Edge { top: p(1.0, 2.0), bot: p(2.0, 3.0), dir: 1 });
    assert_eq!(edges.len(), 2);
    assert!(build_edges(&Vec::new()).is_empty());
}

#[test]
fn spans_follow_the_fill_rule() {
    let c = |x: f64, d: i32| (num(x), d);
    // Two shapes wound alike, one inside the other, out of order.
    let crossings = vec![c(8.0, -1), c(0.0, 1), c(6.0, -1), c(2.0, 1)];
    assert_eq!(
        spans(&crossings, FillRule::NonZero),
        vec![(num(0.0), num(2.0)), (num(2.0), num(6.0)), (num(6.0), num(8.0))]
    );
    assert_eq!(
        spans(&crossings, FillRule::EvenOdd),
        vec![(num(0.0), num(2.0)), (num(6.0), num(8.0))]
    );
    // Wound the other way, the inner one is a hole under either rule.
    let hole = vec![c(0.0, 1), c(2.0, -1), c(6.0, 1), c(8.0, -1)];
    assert_eq!(
        spans(&hole, FillRule::NonZero),
        vec![(num(0.0), num(2.0)), (num(6.0), num(8.0))]
    );
    assert!(spans(&Vec::new(), FillRule::NonZero).is_empty());
}

#[test]
fn a_pixmap_starts_transparent_and_is_written_by_pixel() {
    let mut pm = Pixmap::new(3, 2);
    assert_eq!((pm.width(), pm.height()), (3, 2));
    assert_eq!(pm.data(), vec![0u8; 24].as_slice());
    pm.set_pixel(2, 1, [1, 2, 3, 4]);
    assert_eq!(&pm.data()[20..], &[1, 2, 3, 4]);
    assert!(pm.data()[..20].iter().all(|b| *b == 0));
    assert!(Pixmap::new(0, 9).data().is_empty());
}

#[test]
fn clip_rows_narrow_to_what_every_path_reaches() {
    let a = Rows::all(10).intersect(Rows { y0: 2, y1: 8 });
    assert_eq!(a, Rows { y0: 2, y1: 8 });
    let b = a.intersect(Rows { y0: 5, y1: 20 });
    assert_eq!(b, Rows { y0: 5, y1: 8 });
    assert!(!b.is_empty(4));
    assert!(b.is_empty(0));
    let gone = b.intersect(Rows { y0: 0, y1: 3 });
    assert!(gone.is_empty(4));
    // The order of nesting does not matter.
    let c = Rows { y0: 5, y1: 20 }.intersect(Rows { y0: 2, y1: 8 }).intersect(Rows::all(10));
    assert_eq!(b, c);
}

fn marked(n: u8) -> Draw {
    Draw {
        path: Vec::new(),
        paint: Paint::Solid(Color { r: n, g: 0, b: 0, a: 255 }),
        rule: FillRule::NonZero,
        blend: BlendMode::Multiply,
        clip: Vec::new(),
    }
}

/// A renderer that notes in its first byte what it has seen: fills append a
/// digit, and groups add their finished layer times a hundred.
fn noted(scene: &Scene) -> u32 {
    let note = |pm: &Pixmap| u32::from_le_bytes(pm.pixel(0, 0));
    let write = |mut pm: Pixmap, v: u32| {
        pm.set_pixel(0, 0, v.to_le_bytes());
        pm
    };
    let fill = |pm: Pixmap, d: &Draw| {
        let digit = match d.paint {
            Paint::Solid(c) => u32::from(c.r),
            _ => 9,
        };
        let v = note(&pm) * 10 + digit;
        write(pm, v)
    };
    let composite = |pm: Pixmap, layer: Pixmap, _: BlendMode, _: Real| {
        let v = note(&pm) + 100 * note(&layer);
        write(pm, v)
    };
    note(&scene.render(&fill, &composite))
}

#[test]
fn a_scene_is_painted_in_order_and_groups_on_their_own() {
    let mut scene = Scene::new(1, 1);
    assert_eq!(noted(&scene), 0);
    scene.push(marked(1));
    scene.fill(Vec::new(), Color { r: 2, g: 0, b: 0, a: 255 });
    assert_eq!(noted(&scene), 12);
    // The members do not see what was painted before the group.
    scene.push_group(
        vec![Node::Fill(marked(3)), Node::Fill(marked(4))],
        BlendMode::Normal,
        num(0.5),
    );
    assert_eq!(noted(&scene), 12 + 3400);
    scene.push(marked(5));
    assert_eq!(noted(&scene), 34125);
    let Node::Fill(d) = &scene.nodes[1] else {
        panic!("expected a fill");
    };
    assert_eq!((d.rule, d.blend, d.clip.len()), (FillRule::NonZero, BlendMode::Normal, 0));
}
