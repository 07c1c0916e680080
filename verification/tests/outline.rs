use hane::geom::Point;
use hane::geom::Real;
use hane::geom::Rect;
use hane::path::outline::closed_segments;
use hane::path::outline::CubicBez;
use hane::path::outline::Path;
use hane::path::outline::PathEl;
use hane::path::outline::QuadBez;
use hane::path::outline::Segment;

fn num(v: f64) -> Real {
    Real::from_bits(v.to_bits())
}

fn p(x: f64, y: f64) -> Point {
    Point::new(num(x), num(y))
}

/// A path exercising all five element kinds in one subpath.
fn sample() -> Path {
    Path::from(vec![
        PathEl::MoveTo(p(1.0, 1.0)),
        PathEl::LineTo(p(3.0, 1.0)),
        PathEl::QuadTo(p(4.0, 2.0), p(3.0, 3.0)),
        PathEl::CurveTo(p(2.5, 4.0), p(1.5, 4.0), p(1.0, 3.0)),
        PathEl::ClosePath,
    ])
}

fn val(r: Real) -> f64 {
    f64::from_bits(r.bits)
}

/// The tight box of a segment.
fn tight(s: Segment) -> Rect {
    let ends = Rect::empty().union_point(s.start()).union_point(s.end());
    match s {
        Segment::Line(..) => ends,
        Segment::Quad(q) => sampled(ends, |t| {
            let at = |a: Real, b: Real, c: Real| {
                let u = 1.0 - t;
                u * u * val(a) + 2.0 * u * t * val(b) + t * t * val(c)
            };
            p(at(q.p0.x, q.p1.x, q.p2.x), at(q.p0.y, q.p1.y, q.p2.y))
        }),
        Segment::Cubic(c) => sampled(ends, |t| {
            let at = |a: Real, b: Real, d: Real, e: Real| {
                let u = 1.0 - t;
                u * u * u * val(a)
                    + 3.0 * u * u * t * val(b)
                    + 3.0 * u * t * t * val(d)
                    + t * t * t * val(e)
            };
            p(at(c.p0.x, c.p1.x, c.p2.x, c.p3.x), at(c.p0.y, c.p1.y, c.p2.y, c.p3.y))
        }),
    }
}

fn sampled(ends: Rect, at: impl Fn(f64) -> Point) -> Rect {
    let mut r = ends;
    for i in 1..64 {
        r = r.union_point(at(f64::from(i) / 64.0));
    }
    r
}

fn line_bounds(path: &Path) -> Rect {
    path.bounding_box(&tight)
}

fn rect(x0: f64, y0: f64, x1: f64, y1: f64) -> Rect {
    Rect::new(num(x0), num(y0), num(x1), num(y1))
}

#[test]
fn segments_carry_their_start_points() {
    let segs: Vec<Segment> = sample().segments();
    assert_eq!(
        segs,
        vec![
            Segment::Line(p(1.0, 1.0), p(3.0, 1.0)),
            Segment::Quad(QuadBez { p0: p(3.0, 1.0), p1: p(4.0, 2.0), p2: p(3.0, 3.0) }),
            Segment::Cubic(CubicBez {
                p0: p(3.0, 3.0),
                p1: p(2.5, 4.0),
                p2: p(1.5, 4.0),
                p3: p(1.0, 3.0),
            }),
            Segment::Line(p(1.0, 3.0), p(1.0, 1.0)),
        ]
    );
}

#[test]
fn a_closing_line_of_zero_length_is_not_emitted() {
    let path = Path::from(vec![
        PathEl::MoveTo(p(1.0, 1.0)),
        PathEl::LineTo(p(2.0, 2.0)),
        PathEl::LineTo(p(1.0, 1.0)),
        PathEl::ClosePath,
    ]);
    assert_eq!(path.segments().len(), 2);
    assert!(path.subpaths()[0].is_closed());
}

#[test]
fn a_closing_line_between_zeros_of_either_sign_is_not_emitted() {
    let path = Path::from(vec![
        PathEl::MoveTo(p(0.0, 0.0)),
        PathEl::LineTo(p(2.0, 2.0)),
        PathEl::LineTo(p(-0.0, 0.0)),
        PathEl::ClosePath,
    ]);
    assert_eq!(path.segments().len(), 2);
}

#[test]
fn subpath_boundaries_are_movetos_and_closes() {
    let path = Path::from(vec![
        PathEl::MoveTo(p(0.0, 0.0)),
        PathEl::LineTo(p(1.0, 0.0)),
        PathEl::MoveTo(p(5.0, 5.0)),
        PathEl::LineTo(p(6.0, 5.0)),
        PathEl::ClosePath,
        PathEl::LineTo(p(9.0, 9.0)),
    ]);
    let subs = path.subpaths();
    assert_eq!(subs.len(), 3);

    assert_eq!(subs[0].start(), p(0.0, 0.0));
    assert!(!subs[0].is_closed());
    assert_eq!(subs[0].elements().len(), 1);

    assert_eq!(subs[1].start(), p(5.0, 5.0));
    assert!(subs[1].is_closed());
    assert_eq!(subs[1].segments().len(), 2);

    assert_eq!(subs[2].start(), p(5.0, 5.0));
    assert!(!subs[2].is_closed());
    assert_eq!(subs[2].segments(), vec![Segment::Line(p(5.0, 5.0), p(9.0, 9.0))]);
}

#[test]
fn a_path_not_starting_with_moveto_is_drawn_from_the_origin() {
    let path = Path::from(vec![
        PathEl::LineTo(p(2.0, 0.0)),
        PathEl::LineTo(p(2.0, 2.0)),
        PathEl::ClosePath,
    ]);
    let subs = path.subpaths();
    assert_eq!(subs[0].start(), p(0.0, 0.0));
    assert!(subs[0].is_closed());
    assert_eq!(
        path.segments(),
        vec![
            Segment::Line(p(0.0, 0.0), p(2.0, 0.0)),
            Segment::Line(p(2.0, 0.0), p(2.0, 2.0)),
            Segment::Line(p(2.0, 2.0), p(0.0, 0.0)),
        ]
    );
    assert_eq!(line_bounds(&path), rect(0.0, 0.0, 2.0, 2.0));
}

#[test]
fn a_lone_moveto_is_a_subpath_with_no_segments() {
    let path = Path::from(vec![
        PathEl::MoveTo(p(7.0, 7.0)),
        PathEl::MoveTo(p(0.0, 0.0)),
        PathEl::LineTo(p(1.0, 0.0)),
    ]);
    let subs = path.subpaths();
    assert_eq!(subs.len(), 2);
    assert_eq!(subs[0].start(), p(7.0, 7.0));
    assert_eq!(subs[0].segments().len(), 0);
    assert_eq!(line_bounds(&path), rect(0.0, 0.0, 1.0, 0.0));
}

#[test]
fn an_empty_path_has_no_subpaths_and_empty_bounds() {
    let path = Path::new();
    assert_eq!(path.subpaths().len(), 0);
    assert_eq!(path.segments().len(), 0);
    assert!(line_bounds(&path).is_empty());
}

#[test]
fn bounds_span_every_subpath() {
    let path = Path::from(vec![
        PathEl::MoveTo(p(0.0, 0.0)),
        PathEl::LineTo(p(1.0, 1.0)),
        PathEl::MoveTo(p(-4.0, 2.0)),
        PathEl::LineTo(p(-3.0, 8.0)),
    ]);
    assert_eq!(line_bounds(&path), rect(-4.0, 0.0, 1.0, 8.0));
}

/// A small generator, the same on every run.
struct Rng(u64);

impl Rng {
    fn below(&mut self, n: u64) -> u64 {
        self.0 = self.0.wrapping_mul(6364136223846793005).wrapping_add(1442695040888963407);
        (self.0 >> 33) % n
    }

    fn point(&mut self) -> Point {
        let x = self.below(8) as f64 - 4.0;
        let y = self.below(8) as f64 - 4.0;
        p(x, y)
    }

    fn path(&mut self) -> Path {
        let mut path = Path::new();
        for _ in 0..self.below(9) {
            let el = match self.below(8) {
                0 | 1 => PathEl::MoveTo(self.point()),
                2 | 3 => PathEl::LineTo(self.point()),
                4 => PathEl::QuadTo(self.point(), self.point()),
                5 => PathEl::CurveTo(self.point(), self.point(), self.point()),
                _ => PathEl::ClosePath,
            };
            path.push(el);
        }
        path
    }
}

#[test]
fn segments_chain_start_to_end_within_a_subpath() {
    let mut rng = Rng(7);
    for _ in 0..2000 {
        let path = rng.path();
        for sub in path.subpaths() {
            let mut cur = sub.start();
            for seg in sub.segments() {
                assert_eq!(seg.start(), cur);
                cur = seg.end();
            }
            assert!(!sub.is_closed() || cur == sub.start());
        }
    }
}

#[test]
fn every_drawing_element_yields_at_most_one_segment() {
    let mut rng = Rng(11);
    for _ in 0..2000 {
        let path = rng.path();
        let mut drawing = 0;
        let mut closes = 0;
        for el in path.elements() {
            if !matches!(el, PathEl::MoveTo(_)) {
                drawing += 1;
            }
            if matches!(el, PathEl::ClosePath) {
                closes += 1;
            }
        }
        let n = path.segments().len();
        assert!(n <= drawing && n + closes >= drawing);
    }
}

#[test]
fn reversing_a_segment_twice_gives_it_back() {
    for seg in sample().segments() {
        assert_eq!(seg.reverse().start(), seg.end());
        assert_eq!(seg.reverse().end(), seg.start());
        assert_eq!(seg.reverse().reverse(), seg);
    }
}

#[test]
fn moving_the_ends_of_a_segment_keeps_its_inner_points() {
    let c = Segment::Cubic(CubicBez {
        p0: p(0.0, 0.0),
        p1: p(1.0, 2.0),
        p2: p(3.0, 2.0),
        p3: p(4.0, 0.0),
    });
    let moved = c.with_ends(p(9.0, 9.0), p(8.0, 8.0));
    assert_eq!(
        moved,
        Segment::Cubic(CubicBez {
            p0: p(9.0, 9.0),
            p1: p(1.0, 2.0),
            p2: p(3.0, 2.0),
            p3: p(8.0, 8.0),
        })
    );
    assert_eq!(moved.element(), PathEl::CurveTo(p(1.0, 2.0), p(3.0, 2.0), p(8.0, 8.0)));
}

#[test]
fn an_open_subpath_is_closed_for_filling() {
    let path = Path::from(vec![
        PathEl::MoveTo(p(0.0, 0.0)),
        PathEl::LineTo(p(2.0, 0.0)),
        PathEl::LineTo(p(2.0, 2.0)),
    ]);
    assert_eq!(
        closed_segments(&path),
        vec![
            Segment::Line(p(0.0, 0.0), p(2.0, 0.0)),
            Segment::Line(p(2.0, 0.0), p(2.0, 2.0)),
            Segment::Line(p(2.0, 2.0), p(0.0, 0.0)),
        ]
    );
}

#[test]
fn the_end_point_of_an_element_is_its_last_point() {
    assert_eq!(PathEl::QuadTo(p(1.0, 1.0), p(2.0, 0.0)).end_point(), Some(p(2.0, 0.0)));
    assert_eq!(PathEl::ClosePath.end_point(), None);
}

#[test]
fn bounds_come_from_the_curve_not_the_control_points() {
    let path = Path::from(vec![
        PathEl::MoveTo(p(0.0, 0.0)),
        PathEl::CurveTo(p(0.0, 1.0), p(1.0, 1.0), p(1.0, 0.0)),
    ]);
    let b = path.bounding_box(&tight);
    assert!((val(b.y1) - 0.75).abs() < 1e-15, "{b:?}");
    assert_eq!((b.x0, b.y0, b.x1), (num(0.0), num(0.0), num(1.0)));
}

#[test]
fn transform_moves_control_points_too() {
    let t = |q: Point| p(2.0 * val(q.x) + 10.0, 2.0 * val(q.y));
    let moved = sample().transform(t);
    for (before, after) in sample().elements().iter().zip(moved.elements()) {
        assert_eq!(&before.transform(&t), after);
    }
    let segs = moved.segments();
    let Segment::Quad(q) = segs[1] else {
        panic!("expected a quad");
    };
    assert_eq!(q.p1, t(p(4.0, 2.0)));
}

#[test]
fn bounds_contain_every_segment_endpoint() {
    let mut rng = Rng(3);
    for _ in 0..2000 {
        let path = rng.path();
        let b = path.bounding_box(&tight);
        for s in path.segments() {
            for q in [s.start(), s.end()] {
                assert!(b.x0.not_above(q.x) && q.x.not_above(b.x1));
                assert!(b.y0.not_above(q.y) && q.y.not_above(b.y1));
            }
        }
    }
}
