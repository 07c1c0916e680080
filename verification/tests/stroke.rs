use hane::geom::Point;
use hane::geom::Real;
use hane::path::outline::CubicBez;
use hane::path::outline::Path;
use hane::path::outline::PathEl;
use hane::path::outline::Segment;
use hane::path::stroke::dashable;
use hane::path::stroke::is_point;
use hane::path::stroke::reversed;
use hane::path::stroke::ring_segments;
use hane::path::stroke::stroke_subpath;
use hane::path::stroke::Align;
use hane::path::stroke::Cap;
use hane::path::stroke::Dashes;
use hane::path::stroke::Distance;
use hane::path::stroke::Join;
use hane::path::stroke::Step;
use hane::path::stroke::StrokeStyle;

fn num(v: f64) -> Real {
    Real::from_bits(v.to_bits())
}

fn p(x: f64, y: f64) -> Point {
    Point::new(num(x), num(y))
}

fn line(a: Point, b: Point) -> Path {
    Path::from(vec![PathEl::MoveTo(a), PathEl::LineTo(b)])
}

fn steps(path: &Path, align: Align, clockwise: bool) -> Vec<Step> {
    let mut out = Vec::new();
    for sub in path.subpaths() {
        out.extend(stroke_subpath(&sub, align, clockwise));
    }
    out
}

#[test]
fn a_width_that_is_not_positive_draws_nothing() {
    for w in [0.0, -1.0, f64::NAN, f64::INFINITY] {
        let style = StrokeStyle { width: num(w), ..StrokeStyle::default() };
        assert!(!style.draws(), "width {w}");
    }
    assert!(StrokeStyle::default().draws());
}

#[test]
fn the_default_style_is_that_of_svg() {
    let s = StrokeStyle::default();
    assert_eq!(s.width, num(1.0));
    assert_eq!(s.join, Join::Miter);
    assert_eq!(s.cap, Cap::Butt);
    assert_eq!(s.miter_limit, num(4.0));
    assert_eq!(s.align, Align::Center);
    assert!(s.dash.is_empty());
    assert_eq!(s.dash_offset, num(0.0));
    assert_eq!(s.tolerance, num(0.1));
}

#[test]
fn a_tolerance_that_cannot_be_met_is_replaced() {
    for t in [0.0, -1.0, f64::NAN] {
        let style = StrokeStyle { tolerance: num(t), ..StrokeStyle::default() };
        assert_eq!(style.usable_tolerance(), num(0.1));
    }
    let style = StrokeStyle { tolerance: num(1e-6), ..StrokeStyle::default() };
    assert_eq!(style.usable_tolerance(), num(1e-6));
}

#[test]
fn an_open_line_is_two_sides_and_two_caps() {
    let seg = Segment::Line(p(0.0, 0.0), p(10.0, 0.0));
    let back = seg.reverse();
    assert_eq!(
        steps(&line(p(0.0, 0.0), p(10.0, 0.0)), Align::Center, false),
        vec![
            Step::Offset { seg, d: Distance::Half, begin: true },
            Step::Finish { at: p(10.0, 0.0), along: seg },
            Step::Offset { seg: back, d: Distance::Half, begin: false },
            Step::Finish { at: p(0.0, 0.0), along: back },
            Step::Draw(PathEl::ClosePath),
        ]
    );
}

fn square() -> Path {
    Path::from(vec![
        PathEl::MoveTo(p(0.0, 0.0)),
        PathEl::LineTo(p(10.0, 0.0)),
        PathEl::LineTo(p(10.0, 10.0)),
        PathEl::LineTo(p(0.0, 10.0)),
        PathEl::ClosePath,
    ])
}

#[test]
fn a_closed_path_is_two_contours_without_caps() {
    let out = steps(&square(), Align::Center, false);
    let mut corners = 0;
    let mut closes = 0;
    for s in &out {
        match s {
            Step::Finish { .. } | Step::Dot(_) => panic!("a closed path has no ends"),
            Step::Corner { .. } => corners += 1,
            Step::Draw(PathEl::ClosePath) => closes += 1,
            _ => {}
        }
    }
    // Four corners on each side, the seam among them.
    assert_eq!((corners, closes), (8, 2));
    assert!(matches!(out[7], Step::Corner { at, .. } if at == p(0.0, 0.0)));
}

#[test]
fn segments_without_a_direction_make_no_corner() {
    let clean = Path::from(vec![
        PathEl::MoveTo(p(0.0, 0.0)),
        PathEl::LineTo(p(5.0, 0.0)),
        PathEl::LineTo(p(10.0, 0.0)),
    ]);
    let padded = Path::from(vec![
        PathEl::MoveTo(p(0.0, 0.0)),
        PathEl::LineTo(p(5.0, 0.0)),
        PathEl::LineTo(p(5.0, 0.0)),
        PathEl::CurveTo(p(5.0, 0.0), p(5.0, 0.0), p(5.0, 0.0)),
        PathEl::LineTo(p(10.0, 0.0)),
    ]);
    assert_eq!(steps(&clean, Align::Center, false), steps(&padded, Align::Center, false));
    assert!(is_point(Segment::Line(p(0.0, 0.0), p(-0.0, 0.0))));
    assert!(!is_point(Segment::Cubic(CubicBez {
        p0: p(5.0, 0.0),
        p1: p(5.0, 1.0),
        p2: p(5.0, 0.0),
        p3: p(5.0, 0.0),
    })));
}

#[test]
fn a_lone_moveto_is_a_dot() {
    let path = Path::from(vec![PathEl::MoveTo(p(3.0, 4.0))]);
    assert_eq!(steps(&path, Align::Center, false), vec![Step::Dot(p(3.0, 4.0))]);
    assert_eq!(steps(&path, Align::Inside, false), Vec::new());
}

#[test]
fn a_stroke_beside_the_path_keeps_the_path_as_one_contour() {
    let sub = square();
    let ring = ring_segments(&sub.subpaths()[0]);
    assert_eq!(ring.len(), 4);
    let inside = steps(&sub, Align::Inside, false);
    assert_eq!(inside[0], Step::Draw(PathEl::MoveTo(p(0.0, 0.0))));
    assert_eq!(inside[1], Step::Draw(PathEl::LineTo(p(10.0, 0.0))));
    assert_eq!(inside[5], Step::Draw(PathEl::ClosePath));
    let back = reversed(&ring);
    assert_eq!(inside[6], Step::Offset { seg: back[0], d: Distance::MinusWhole, begin: true });
    let outside = steps(&sub, Align::Outside, true);
    assert_eq!(outside[0], Step::Offset { seg: ring[0], d: Distance::Whole, begin: true });
    assert_eq!(outside.last(), Some(&Step::Draw(PathEl::ClosePath)));
}

#[test]
fn the_ring_of_an_open_subpath_is_closed_by_a_line() {
    let path = Path::from(vec![
        PathEl::MoveTo(p(0.0, 0.0)),
        PathEl::LineTo(p(4.0, 0.0)),
        PathEl::LineTo(p(4.0, 4.0)),
    ]);
    let subs = path.subpaths();
    let ring = ring_segments(&subs[0]);
    assert_eq!(ring.len(), 3);
    assert_eq!(ring[2], Segment::Line(p(4.0, 4.0), p(0.0, 0.0)));
    assert_eq!(reversed(&reversed(&ring)), ring);
}

#[test]
fn a_pattern_that_cannot_be_dashed_is_refused() {
    let pattern = |v: &[f64]| -> Vec<Real> { v.iter().map(|x| num(*x)).collect() };
    assert!(!dashable(&pattern(&[]), num(0.0), num(0.0)));
    assert!(!dashable(&pattern(&[0.0, 0.0]), num(0.0), num(0.0)));
    assert!(!dashable(&pattern(&[-1.0, 2.0]), num(1.0), num(0.0)));
    assert!(!dashable(&pattern(&[f64::NAN]), num(f64::NAN), num(0.0)));
    assert!(!dashable(&pattern(&[1.0]), num(2.0), num(f64::NAN)));
    assert!(dashable(&pattern(&[1.0]), num(2.0), num(-3.0)));
}

/// Dashes a horizontal line of unit steps from 0 to `len`.
fn dash(len: usize, pattern: &[usize]) -> Path {
    let mut d = Dashes::new();
    let mut x = 0;
    let mut left = pattern[0];
    while x < len || (left == 0 && x <= len) {
        let run = left.min(len - x);
        let piece = if run == 0 {
            None
        } else {
            Some(Segment::Line(p(x as f64, 0.0), p((x + run) as f64, 0.0)))
        };
        d.take(piece, p(x as f64, 0.0), run == left, pattern.len());
        x += run;
        left = if run == left { pattern[d.entry] } else { left - run };
        if x == len {
            break;
        }
    }
    d.end_subpath(p(0.0, 0.0), false);
    Path::from(d.els)
}

#[test]
fn a_pattern_alternates_between_dashes_and_gaps() {
    let starts: Vec<Point> = dash(10, &[2, 2]).subpaths().iter().map(|s| s.start()).collect();
    assert_eq!(starts, vec![p(0.0, 0.0), p(4.0, 0.0), p(8.0, 0.0)]);
}

#[test]
fn an_odd_pattern_swaps_its_roles_every_time_round() {
    let path = dash(12, &[1, 2, 3]);
    let ends: Vec<(Point, Point)> =
        path.subpaths().iter().map(|s| (s.start(), s.segments()[0].end())).collect();
    assert_eq!(
        ends,
        vec![
            (p(0.0, 0.0), p(1.0, 0.0)),
            (p(3.0, 0.0), p(6.0, 0.0)),
            (p(7.0, 0.0), p(9.0, 0.0)),
        ]
    );
}

#[test]
fn a_dash_of_no_length_is_a_lone_moveto() {
    let path = dash(10, &[0, 4]);
    let subs = path.subpaths();
    assert_eq!(subs.len(), 3);
    for (sub, x) in subs.iter().zip([0.0, 4.0, 8.0]) {
        assert_eq!(sub.segments().len(), 0);
        assert_eq!(sub.start(), p(x, 0.0));
    }
}

#[test]
fn a_dash_goes_on_across_segments_and_starts_over_with_a_subpath() {
    let mut d = Dashes::new();
    let a = Segment::Line(p(0.0, 0.0), p(1.0, 0.0));
    let b = Segment::Line(p(1.0, 0.0), p(1.5, 0.0));
    d.take(Some(a), a.start(), false, 2);
    assert!(d.started && d.on);
    d.take(Some(b), b.start(), true, 2);
    assert!(!d.started && !d.on && d.entry == 1);
    assert_eq!(
        d.els,
        vec![
            PathEl::MoveTo(p(0.0, 0.0)),
            PathEl::LineTo(p(1.0, 0.0)),
            PathEl::LineTo(p(1.5, 0.0)),
        ]
    );
    d.restart();
    assert!(d.on && d.entry == 0);
    // A subpath with no segments still has a position.
    d.end_subpath(p(9.0, 9.0), true);
    assert_eq!(d.els.last(), Some(&PathEl::MoveTo(p(9.0, 9.0))));
}
