use hane::geom::Point;
use hane::geom::Real;
use hane::geom::Rect;
use hane::path::boolean::Affine;
use hane::path::boolean::Arrangement;
use hane::path::boolean::BoolOp;
use hane::path::boolean::Edge;
use hane::path::boolean::FillRule;
use hane::path::boolean::Merger;
use hane::path::boolean::Preview;
use hane::path::cutting::candidates;
use hane::path::cutting::cluster;
use hane::path::cutting::collect_cuts;
use hane::path::cutting::merge_duplicates;
use hane::path::cutting::sort_edges;
use hane::path::cutting::spans;
use hane::path::cutting::Meeting;
use hane::path::outline::closed_segments;
use hane::path::outline::Path;
use hane::path::outline::PathEl;
use hane::path::outline::Segment;
use hane::path::overlay::Tools;
use hane::path::ray;
use hane::path::winding::elect;

const NZ: [FillRule; 2] = [FillRule::NonZero; 2];
const EPS: f64 = 1e-9;

fn num(v: f64) -> Real {
    Real::from_bits(v.to_bits())
}

fn val(r: Real) -> f64 {
    f64::from_bits(r.bits)
}

fn pt(x: f64, y: f64) -> Point {
    Point::new(num(x), num(y))
}

fn xy(p: Point) -> (f64, f64) {
    (val(p.x), val(p.y))
}

fn square(x: f64, y: f64, w: f64) -> Path {
    Path::from(vec![
        PathEl::MoveTo(pt(x, y)),
        PathEl::LineTo(pt(x + w, y)),
        PathEl::LineTo(pt(x + w, y + w)),
        PathEl::LineTo(pt(x, y + w)),
        PathEl::ClosePath,
    ])
}

fn joined(a: &Path, b: &Path) -> Path {
    let mut out = Path::new();
    for el in a.elements().iter().chain(b.elements()) {
        out.push(*el);
    }
    out
}

/// The signed area of a path of straight lines.
fn area(path: &Path) -> f64 {
    let mut sum = 0.0;
    for s in closed_segments(path) {
        let ((x0, y0), (x1, y1)) = (xy(s.start()), xy(s.end()));
        sum += 0.5 * (x0 * y1 - x1 * y0);
    }
    sum
}

fn one(paths: Vec<Path>) -> Path {
    assert_eq!(paths.len(), 1);
    paths.into_iter().next().unwrap()
}

fn lerp(s: Segment, t: f64) -> Point {
    if t == 0.0 {
        return s.start();
    }
    if t == 1.0 {
        return s.end();
    }
    let ((x0, y0), (x1, y1)) = (xy(s.start()), xy(s.end()));
    pt(x0 + (x1 - x0) * t, y0 + (y1 - y0) * t)
}

fn length(s: Segment) -> f64 {
    let ((x0, y0), (x1, y1)) = (xy(s.start()), xy(s.end()));
    (x1 - x0).hypot(y1 - y0)
}

fn grown_box(s: Segment) -> Rect {
    let ((x0, y0), (x1, y1)) = (xy(s.start()), xy(s.end()));
    Rect::new(
        num(x0.min(x1) - EPS),
        num(y0.min(y1) - EPS),
        num(x0.max(x1) + EPS),
        num(y0.max(y1) + EPS),
    )
}

/// Where two straight lines meet.
fn meet(s: Segment, t: Segment) -> Meeting {
    let ((ax, ay), (bx, by)) = (xy(s.start()), xy(s.end()));
    let ((cx, cy), (dx, dy)) = (xy(t.start()), xy(t.end()));
    let (ux, uy) = (bx - ax, by - ay);
    let (vx, vy) = (dx - cx, dy - cy);
    let cross = ux * vy - uy * vx;
    let (wx, wy) = (cx - ax, cy - ay);
    if cross != 0.0 {
        let u = (wx * vy - wy * vx) / cross;
        let v = (wx * uy - wy * ux) / cross;
        if (0.0..=1.0).contains(&u) && (0.0..=1.0).contains(&v) {
            return Meeting::Points(vec![(num(u), num(v))]);
        }
        return Meeting::Points(Vec::new());
    }
    if wx * uy - wy * ux != 0.0 {
        return Meeting::Points(Vec::new());
    }
    let uu = ux * ux + uy * uy;
    let at = |x: f64, y: f64| ((x - ax) * ux + (y - ay) * uy) / uu;
    let (c, d) = (at(cx, cy), at(dx, dy));
    let lo = c.min(d).max(0.0);
    let hi = c.max(d).min(1.0);
    if hi <= lo {
        return Meeting::Points(Vec::new());
    }
    let back = |u: f64| (u - c) / (d - c);
    Meeting::Overlap { a: (num(lo), num(hi)), b: (num(back(lo)), num(back(hi))) }
}

/// A segment as the function from a parameter to a point.
fn at(s: Segment, t: f64) -> (f64, f64) {
    match s {
        Segment::Cubic(c) => {
            let k = [xy(c.p0), xy(c.p1), xy(c.p2), xy(c.p3)];
            let u = 1.0 - t;
            let w = [u * u * u, 3.0 * u * u * t, 3.0 * u * t * t, t * t * t];
            let mut sum = (0.0, 0.0);
            for i in 0..4 {
                sum.0 += k[i].0 * w[i];
                sum.1 += k[i].1 * w[i];
            }
            sum
        }
        _ => xy(lerp(s, t)),
    }
}

/// Where a segment turns in y.
fn turns(s: Segment) -> Vec<Real> {
    let Segment::Cubic(c) = s else {
        return Vec::new();
    };
    let y = [val(c.p0.y), val(c.p1.y), val(c.p2.y), val(c.p3.y)];
    let (a, b, c) = (y[1] - y[0], y[2] - y[1], y[3] - y[2]);
    let (aa, bb, cc) = (a - 2.0 * b + c, 2.0 * (b - a), a);
    if aa == 0.0 {
        return if bb == 0.0 { Vec::new() } else { vec![num(-cc / bb)] };
    }
    let disc = bb * bb - 4.0 * aa * cc;
    if disc < 0.0 {
        return Vec::new();
    }
    let q = -0.5 * (bb + bb.signum() * disc.sqrt());
    if q == 0.0 {
        return vec![num(0.0)];
    }
    vec![num(q / aa), num(cc / q)]
}

/// The box around a segment.
fn tight(s: Segment) -> Rect {
    let mut r = Rect::empty().union_point(s.start()).union_point(s.end());
    if matches!(s, Segment::Line(..)) {
        return r;
    }
    for i in 1..64 {
        let (x, y) = at(s, f64::from(i) / 64.0);
        r = r.union_point(pt(x, y));
    }
    for t in turns(s) {
        if val(t) > 0.0 && val(t) < 1.0 {
            let (x, y) = at(s, val(t));
            r = r.union_point(pt(x, y));
        }
    }
    r
}

/// How often a segment crosses the ray from a point.
fn crossings(s: Segment, p: Point) -> i32 {
    ray::crossings(
        &ray::monotone_cuts(&turns(s)),
        p,
        &|t: Real| num(at(s, val(t)).1),
        &|t: Real| num(at(s, val(t)).0),
        &|a: Real, b: Real| num(0.5 * (val(a) + val(b))),
    )
}

/// The winding number of segments about a point.
fn winding(segs: &[Segment], p: (f64, f64)) -> i32 {
    let boxes: Vec<Rect> = segs.iter().map(|&s| tight(s)).collect();
    ray::winding(&boxes, pt(p.0, p.1), &|k: usize| crossings(segs[k], pt(p.0, p.1)))
}

fn shape(s: Segment) -> Vec<Real> {
    let mut out = Vec::new();
    for t in [0.0, 1.0 / 3.0, 2.0 / 3.0, 1.0] {
        let p = lerp(s, t);
        out.push(p.x);
        out.push(p.y);
    }
    out
}

/// The distance from a point to the nearest of straight edges.
fn clear_of(edges: &[Edge], p: (f64, f64), floor: Option<Real>, skip: Option<usize>) -> f64 {
    let to_box = |k: usize| {
        let ((x0, y0), (x1, y1)) = (xy(edges[k].seg.start()), xy(edges[k].seg.end()));
        let dx = (x0.min(x1) - p.0).max(p.0 - x0.max(x1)).max(0.0);
        let dy = (y0.min(y1) - p.1).max(p.1 - y0.max(y1)).max(0.0);
        num(dx.hypot(dy))
    };
    let to_line = |k: usize| {
        let ((x0, y0), (x1, y1)) = (xy(edges[k].seg.start()), xy(edges[k].seg.end()));
        let (ux, uy) = (x1 - x0, y1 - y0);
        let t = (((p.0 - x0) * ux + (p.1 - y0) * uy) / (ux * ux + uy * uy)).clamp(0.0, 1.0);
        num((p.0 - x0 - t * ux).hypot(p.1 - y0 - t * uy))
    };
    val(ray::clearance(edges.len(), floor, skip, &to_box, &to_line))
}

struct Built {
    arr: Arrangement,
    edges: Vec<Edge>,
}

fn edges_of(arr: &Arrangement) -> Vec<Edge> {
    (0..arr.edge_count()).map(|e| arr.edge(e)).collect()
}

/// What is asked of two paths.
enum Job {
    Arrange,
    Apply(BoolOp, [FillRule; 2]),
}

/// Builds the arrangement of two paths of straight lines, or applies an
/// operation to them.
fn run(a: &Path, b: &Path, job: Job) -> (Option<Arrangement>, Vec<Path>) {
    let grow = |r: Rect| {
        Rect::new(
            num(val(r.x0) - EPS),
            num(val(r.y0) - EPS),
            num(val(r.x1) + EPS),
            num(val(r.y1) + EPS),
        )
    };
    let tools = Tools {
        eps: num(EPS),
        tight,
        grow,
        boxed: grown_box,
        whole: |s: Segment| length(s) > EPS,
        folds: |_: Segment| Vec::new(),
        long: |s: Segment, t0: Real, t1: Real| length(s) * (val(t1) - val(t0)) > EPS,
        part: |s: Segment, t0: Real, t1: Real| Segment::Line(lerp(s, val(t0)), lerp(s, val(t1))),
        meet,
        behind: |v: Point, p: Point| val(v.x) < val(p.x) - EPS,
        near: |v: Point, p: Point| {
            let ((x0, y0), (x1, y1)) = (xy(v), xy(p));
            (x1 - x0).hypot(y1 - y0) <= EPS
        },
        tiny: |s: Segment| length(s) <= EPS,
        shape,
        // Straight edges over one pair of vertices are one arc.
        same_arc: |_: Segment, _: Segment| true,
        same_way: |_: Segment, _: Segment| true,
        reach: |s: Segment| num(0.25 * length(s)),
        key: |s: Segment, _: Real| {
            let ((x0, y0), (x1, y1)) = (xy(s.start()), xy(s.end()));
            let mut angle = (y1 - y0).atan2(x1 - x0);
            if angle < 0.0 {
                angle += core::f64::consts::TAU;
            }
            (num(angle), num(0.0))
        },
        spots: |arr: &Arrangement, f: usize| {
            let edges = edges_of(arr);
            let mut steps = Vec::new();
            for &h in arr.face(f).iter().take(8) {
                let s = arr.half_edge(h);
                let ((x0, y0), (x1, y1)) = (xy(s.start()), xy(s.end()));
                let (mx, my, len) = (0.5 * (x0 + x1), 0.5 * (y0 + y1), length(s));
                let room = clear_of(&edges, (mx, my), None, Some(h / 2));
                let limit = (0.5 * room).min(0.25 * len);
                for scale in [0.5, 0.25] {
                    let step = limit * scale;
                    let p = pt(mx - (y1 - y0) / len * step, my + (x1 - x0) / len * step);
                    steps.push((p, num(0.4 * step)));
                }
            }
            steps
        },
        clear: |arr: &Arrangement, p: Point, floor: Real| {
            num(clear_of(&edges_of(arr), xy(p), Some(floor), None))
        },
        cross: crossings,
        sum: |x: Real, y: Real| num(val(x) + val(y)),
    };
    match job {
        Job::Arrange => (Arrangement::new(a, b, &tools), Vec::new()),
        Job::Apply(op, rules) => {
            (None, a.boolean(b, op, rules, &tools).expect("too many pieces"))
        }
    }
}

/// The arrangement of two paths of straight lines.
fn arrange(a: &Path, b: &Path) -> Built {
    let arr = run(a, b, Job::Arrange).0.expect("too many pieces");
    let edges = edges_of(&arr);
    Built { arr, edges }
}

fn boolean(a: &Path, b: &Path, op: BoolOp, rules: [FillRule; 2]) -> Vec<Path> {
    run(a, b, Job::Apply(op, rules)).1
}

fn same(a: &Path, b: &Path) -> bool {
    a.elements() == b.elements()
}

#[test]
fn each_fill_rule_fills_what_it_says() {
    for (w, nonzero, evenodd) in [(0, false, false), (1, true, true), (-1, true, true), (2, true, false), (-2, true, false), (3, true, true)] {
        assert_eq!(FillRule::NonZero.fills(w), nonzero);
        assert_eq!(FillRule::EvenOdd.fills(w), evenodd);
    }
    assert!(FillRule::EvenOdd.fills(i32::MAX));
    assert!(!FillRule::EvenOdd.fills(i32::MIN));
}

#[test]
fn disjoint_inputs_conserve_area_exactly() {
    let a = square(0.0, 0.0, 2.0);
    let b = square(5.0, 5.0, 3.0);
    let u = one(boolean(&a, &b, BoolOp::Union, NZ));
    assert!(same(&u, &joined(&a, &b)));
    assert_eq!(area(&u), area(&a) + area(&b));
    assert!(boolean(&a, &b, BoolOp::Intersect, NZ).is_empty());
    assert!(same(&one(boolean(&a, &b, BoolOp::Subtract, NZ)), &a));
    let parts = boolean(&a, &b, BoolOp::Divide, NZ);
    assert_eq!(parts.len(), 2);
    assert!(same(&parts[0], &a) && same(&parts[1], &b));

    let c = square(2.0, 0.0, 2.0);
    let u = one(boolean(&a, &c, BoolOp::Union, NZ));
    assert!((area(&u) - 8.0).abs() < 1e-12, "{}", area(&u));
    assert!(boolean(&a, &c, BoolOp::Intersect, NZ).is_empty());
}

#[test]
fn a_square_intersects_itself_to_itself() {
    let a = square(0.0, 0.0, 2.0);
    let i = one(boolean(&a, &a, BoolOp::Intersect, NZ));
    let mut want = a.segments();
    let mut got = i.segments();
    let key = |s: &Segment| (s.start().x.bits, s.start().y.bits, s.end().x.bits, s.end().y.bits);
    got.sort_by_key(key);
    want.sort_by_key(key);
    assert_eq!(got, want);
    assert!(boolean(&a, &a, BoolOp::Subtract, NZ).is_empty());
    let u = one(boolean(&a, &a, BoolOp::Union, NZ));
    assert!((area(&u) - area(&a)).abs() < 1e-12 * area(&a).abs());
}

#[test]
fn overlapping_squares_conserve_area() {
    let a = square(0.0, 0.0, 2.0);
    let b = square(1.0, 1.0, 2.0);
    let u = area(&one(boolean(&a, &b, BoolOp::Union, NZ)));
    let i = area(&one(boolean(&a, &b, BoolOp::Intersect, NZ)));
    let s = area(&one(boolean(&a, &b, BoolOp::Subtract, NZ)));
    assert!((u - 7.0).abs() < 1e-12 && (i - 1.0).abs() < 1e-12 && (s - 3.0).abs() < 1e-12);
    let parts = boolean(&a, &b, BoolOp::Divide, NZ);
    let areas: Vec<f64> = parts.iter().map(area).collect();
    assert_eq!(areas, vec![3.0, 1.0, 3.0]);
}

#[test]
fn nested_shapes_get_the_right_winding_numbers() {
    let ring = joined(
        &square(0.0, 0.0, 10.0),
        &Path::from(vec![
            PathEl::MoveTo(pt(3.0, 3.0)),
            PathEl::LineTo(pt(3.0, 7.0)),
            PathEl::LineTo(pt(7.0, 7.0)),
            PathEl::LineTo(pt(7.0, 3.0)),
            PathEl::ClosePath,
        ]),
    );
    let probe = square(4.0, 4.0, 2.0);
    assert!(boolean(&ring, &probe, BoolOp::Intersect, NZ).is_empty());
    let u = one(boolean(&ring, &probe, BoolOp::Union, NZ));
    assert!((area(&u).abs() - (100.0 - 16.0 + 4.0)).abs() < 1e-9, "{}", area(&u));

    let both = joined(&square(0.0, 0.0, 10.0), &square(3.0, 3.0, 4.0));
    let nz = one(boolean(&both, &probe, BoolOp::Intersect, [FillRule::NonZero; 2]));
    assert!((area(&nz).abs() - 4.0).abs() < 1e-9, "{}", area(&nz));
    let eo = boolean(&both, &probe, BoolOp::Intersect, [FillRule::EvenOdd, FillRule::NonZero]);
    assert!(eo.is_empty(), "{}", eo.len());
}

#[test]
fn a_self_intersecting_input_is_classified_by_winding() {
    let bowtie = Path::from(vec![
        PathEl::MoveTo(pt(0.0, 0.0)),
        PathEl::LineTo(pt(4.0, 4.0)),
        PathEl::LineTo(pt(4.0, 0.0)),
        PathEl::LineTo(pt(0.0, 4.0)),
        PathEl::ClosePath,
    ]);
    let all = square(-1.0, -1.0, 6.0);
    let i = one(boolean(&bowtie, &all, BoolOp::Intersect, [FillRule::EvenOdd; 2]));
    assert!((area(&i).abs() - 8.0).abs() < 1e-9, "{}", area(&i));
    let built = arrange(&bowtie, &all);
    let mut found = false;
    for v in built.arr.vertices() {
        let (x, y) = xy(*v);
        found = found || (x - 2.0).hypot(y - 2.0) < 1e-9;
    }
    assert!(found, "the crossing must be a vertex");
}

#[test]
fn a_shared_edge_is_one_edge_of_the_arrangement() {
    let a = square(0.0, 0.0, 2.0);
    let b = square(2.0, 0.0, 2.0);
    let u = one(boolean(&a, &b, BoolOp::Union, NZ));
    assert!((area(&u) - 8.0).abs() < 1e-12, "{}", area(&u));
    assert_eq!(u.subpaths().len(), 1);
    let mut r = Rect::empty();
    for s in u.segments() {
        r = r.union_point(s.start()).union_point(s.end());
    }
    assert_eq!(r, Rect::new(num(0.0), num(0.0), num(4.0), num(2.0)));

    let c = square(1.0, 2.0, 2.0);
    let u = one(boolean(&a, &c, BoolOp::Union, NZ));
    assert!((area(&u) - 8.0).abs() < 1e-12, "{}", area(&u));
    assert_eq!(u.subpaths().len(), 1);
}

#[test]
fn a_hole_survives_the_operations() {
    let outer = square(0.0, 0.0, 10.0);
    let hole = square(3.0, 3.0, 4.0);
    let ring = one(boolean(&outer, &hole, BoolOp::Subtract, NZ));
    assert!((area(&ring).abs() - 84.0).abs() < 1e-9, "{}", area(&ring));
    assert_eq!(ring.subpaths().len(), 2, "outer boundary and hole");

    let half = square(-1.0, -1.0, 6.0);
    let cut = one(boolean(&ring, &half, BoolOp::Intersect, NZ));
    assert!((area(&cut).abs() - (25.0 - 4.0)).abs() < 1e-9, "{}", area(&cut));
}

#[test]
fn an_open_subpath_is_filled_as_though_closed() {
    let open = Path::from(vec![
        PathEl::MoveTo(pt(0.0, 0.0)),
        PathEl::LineTo(pt(4.0, 0.0)),
        PathEl::LineTo(pt(4.0, 4.0)),
        PathEl::LineTo(pt(0.0, 4.0)),
    ]);
    let i = one(boolean(&open, &square(2.0, 2.0, 4.0), BoolOp::Intersect, NZ));
    assert!((area(&i).abs() - 4.0).abs() < 1e-9, "{}", area(&i));
}

#[test]
fn faces_partition_the_half_edges() {
    let arr = arrange(&square(0.0, 0.0, 2.0), &square(1.0, 1.0, 2.0)).arr;
    let mut total = 0;
    for f in 0..arr.face_count() {
        total += arr.face(f).len();
    }
    assert_eq!(total, 2 * arr.edge_count());
    assert_eq!((arr.vertices().len(), arr.edge_count()), (10, 12));
    assert_eq!(arr.face_count(), arr.edge_count() + 2 - arr.vertices().len());
    let mut outside = 0;
    for f in 0..arr.face_count() {
        if arr.face_winding(f) == [0, 0] {
            outside += 1;
        }
    }
    assert!(outside >= 1);
}

#[test]
fn windings_agree_across_every_edge_of_squares() {
    for (a, b) in [
        (square(0.0, 0.0, 2.0), square(1.0, 1.0, 2.0)),
        (square(0.0, 0.0, 2.0), square(2.0, 0.0, 2.0)),
        (square(0.0, 0.0, 10.0), square(3.0, 3.0, 4.0)),
    ] {
        let built = arrange(&a, &b);
        let arr = built.arr;
        let mut face_of = vec![0; 2 * arr.edge_count()];
        for f in 0..arr.face_count() {
            for h in arr.face(f) {
                face_of[*h] = f;
            }
        }
        for (e, edge) in built.edges.iter().enumerate() {
            let l = arr.face_winding(face_of[2 * e]);
            let r = arr.face_winding(face_of[2 * e + 1]);
            assert_eq!((l[0] - r[0], l[1] - r[1]), edge.wind);
        }
        assert!(arr.face_count() + arr.vertices().len() >= arr.edge_count() + 2);
    }
}

#[test]
fn the_result_does_not_depend_on_which_square_comes_first() {
    let a = square(0.0, 0.0, 2.0);
    let b = square(1.0, 1.0, 2.0);
    let ab = one(boolean(&a, &b, BoolOp::Union, NZ));
    let ba = one(boolean(&b, &a, BoolOp::Union, NZ));
    assert!(same(&ab, &ba));
    assert_eq!(arrange(&a, &b).arr.vertices(), arrange(&b, &a).arr.vertices());
}

#[test]
fn empty_inputs_are_answered_without_an_arrangement() {
    let a = square(0.0, 0.0, 2.0);
    let empty = Path::new();
    assert!(same(&one(boolean(&a, &empty, BoolOp::Union, NZ)), &a));
    assert!(boolean(&a, &empty, BoolOp::Intersect, NZ).is_empty());
    assert!(same(&one(boolean(&a, &empty, BoolOp::Subtract, NZ)), &a));
    assert!(boolean(&empty, &empty, BoolOp::Union, NZ).is_empty());
    assert!(boolean(&empty, &a, BoolOp::Subtract, NZ).is_empty());
}

fn shift(x: f64) -> Affine {
    Affine { a: num(1.0), b: num(0.0), c: num(0.0), d: num(1.0), e: num(x), f: num(0.0) }
}

fn shifted(path: &Path, dx: f64) -> Path {
    let mv = |p: Point| pt(val(p.x) + dx, val(p.y));
    let mut out = Path::new();
    for el in path.elements() {
        out.push(match el {
            PathEl::MoveTo(p) => PathEl::MoveTo(mv(*p)),
            PathEl::LineTo(p) => PathEl::LineTo(mv(*p)),
            other => *other,
        });
    }
    out
}

fn drag(pv: &mut Preview, dx: f64) {
    let t = shift(dx);
    let fresh = if pv.is_stale(t) {
        let (a, b, op, rules) = pv.inputs();
        Some(boolean(a, &shifted(b, dx), op, rules))
    } else {
        None
    };
    pv.drag(t, fresh);
}

#[test]
fn a_preview_matches_what_it_commits() {
    let a = square(0.0, 0.0, 2.0);
    let b = square(1.0, 1.0, 2.0);
    let start = boolean(&a, &b, BoolOp::Union, NZ);
    let mut pv = Preview::new(a.clone(), b.clone(), BoolOp::Union, NZ, start);
    let mut last = Path::new();
    for k in 0..10 {
        let dx = 0.1 * f64::from(k);
        drag(&mut pv, dx);
        last = one(boolean(&a, &shifted(&b, dx), BoolOp::Union, NZ));
        assert_eq!(pv.result().len(), 1);
        assert!(same(&pv.result()[0], &last));
    }
    assert!(same(&one(pv.commit()), &last));

    let start = boolean(&a, &b, BoolOp::Union, NZ);
    let mut pv = Preview::new(a.clone(), b.clone(), BoolOp::Union, NZ, start);
    drag(&mut pv, 0.5);
    let first = pv.result().as_ptr();
    assert!(!pv.is_stale(shift(0.5)));
    drag(&mut pv, 0.5);
    assert_eq!(pv.result().as_ptr(), first);

    let start = boolean(&a, &b, BoolOp::Subtract, NZ);
    let mut pv = Preview::new(a.clone(), b.clone(), BoolOp::Subtract, NZ, start);
    drag(&mut pv, 3.0);
    let (x, y) = pv.cancel();
    assert!(same(&x, &a) && same(&y, &b));
}

#[test]
fn edges_of_one_arc_are_merged_by_their_direction() {
    let forth = Segment::Line(pt(0.0, 0.0), pt(1.0, 0.0));
    let edges = vec![
        Edge { seg: forth, v0: 0, v1: 1, wind: (1, 0) },
        Edge { seg: forth.reverse(), v0: 1, v1: 0, wind: (0, 1) },
        Edge { seg: Segment::Line(pt(1.0, 0.0), pt(2.0, 0.0)), v0: 1, v1: 2, wind: (1, 0) },
    ];
    let shapes: Vec<Vec<Real>> = edges.iter().map(|e| shape(e.seg)).collect();
    let order = sort_edges(&edges, &shapes, false);
    assert_eq!(order, vec![0, 1, 2]);
    let always = |_: Segment, _: Segment| true;
    let merged = merge_duplicates(&edges, &order, &always, &always);
    assert_eq!(merged.len(), 2);
    assert_eq!(merged[0], Edge { seg: forth, v0: 0, v1: 1, wind: (1, -1) });
    assert_eq!(merged[1], edges[2]);
    // With no two alike, every edge is kept.
    let apart = merge_duplicates(&edges, &order, &|_: Segment, _: Segment| false, &always);
    assert_eq!(apart, edges);
}

#[test]
fn a_merger_keeps_to_one_pair_of_vertices() {
    let s = Segment::Line(pt(0.0, 0.0), pt(1.0, 0.0));
    let e = |v0: usize, v1: usize| Edge { seg: s, v0, v1, wind: (1, 0) };
    let mut m = Merger::new();
    assert_eq!(m.open_group(e(0, 1)), 0);
    m.keep(e(0, 1));
    assert_eq!(m.open_group(e(1, 0)), 0);
    m.absorb(0, e(1, 0), true);
    assert_eq!(m.edge(0).wind, (0, 0));
    assert_eq!(m.open_group(e(1, 2)), 1);
    m.keep(e(1, 2));
    // A loop asks its geometry which way it runs.
    assert_eq!(m.open_group(e(2, 2)), 2);
    m.keep(e(2, 2));
    m.absorb(2, e(2, 2), false);
    assert_eq!(m.finish()[2].wind, (0, 0));
}

#[test]
fn cuts_are_sorted_merged_and_kept_off_the_ends() {
    let r = |v: f64| num(v);
    let s = Segment::Line(pt(0.0, 0.0), pt(1.0, 0.0));
    let long = |_: Segment, a: Real, b: Real| val(b) - val(a) > 0.01;
    let cuts = vec![r(0.5), r(0.0), r(0.25), r(1.0), r(0.255), r(f64::NAN), r(-1.0), r(2.0)];
    assert_eq!(
        spans(s, &cuts, &long, true),
        vec![(r(0.0), r(0.25)), (r(0.25), r(0.5)), (r(0.5), r(1.0))]
    );
    // A tail too short to stand alone is given to what is before it.
    assert_eq!(spans(s, &vec![r(0.5), r(0.995)], &long, true), vec![(r(0.0), r(0.5)), (r(0.5), r(1.0))]);
    assert_eq!(spans(s, &Vec::new(), &long, true), vec![(r(0.0), r(1.0))]);
    // A segment with no extent is a stretch only where it is a loop.
    let never = |_: Segment, _: Real, _: Real| false;
    assert_eq!(spans(s, &vec![r(0.5)], &never, false), Vec::new());
    assert_eq!(spans(s, &vec![r(0.5)], &never, true), vec![(r(0.0), r(1.0))]);
}

#[test]
fn only_boxes_that_overlap_are_paired() {
    let b = |x: f64| Rect::new(num(x), num(0.0), num(x + 1.5), num(1.0));
    assert_eq!(candidates(&vec![b(0.0), b(1.0), b(2.0), b(9.0)]), vec![(0, 1), (1, 2)]);
    let cuts = collect_cuts(
        3,
        &vec![(0, 1), (0, 2)],
        &vec![
            Meeting::Points(vec![(num(0.1), num(0.2)), (num(0.3), num(0.4))]),
            Meeting::Overlap { a: (num(0.5), num(0.6)), b: (num(0.7), num(0.8)) },
        ],
    );
    assert_eq!(cuts[0], vec![num(0.1), num(0.3), num(0.5), num(0.6)]);
    assert_eq!(cuts[1], vec![num(0.2), num(0.4)]);
    assert_eq!(cuts[2], vec![num(0.7), num(0.8)]);
}

#[test]
fn an_empty_result_is_no_path_at_all() {
    let dot = Path::from(vec![PathEl::MoveTo(pt(0.0, 0.0))]);
    let flat = Path::from(vec![PathEl::MoveTo(pt(0.0, 0.0)), PathEl::LineTo(pt(4.0, 0.0))]);
    for nothing in [&dot, &flat] {
        for other in [&Path::new(), &dot, &flat] {
            for op in [BoolOp::Union, BoolOp::Intersect, BoolOp::Subtract, BoolOp::Divide] {
                assert!(boolean(nothing, other, op, NZ).is_empty());
            }
        }
        let far = square(9.0, 9.0, 1.0);
        assert!(boolean(nothing, &far, BoolOp::Subtract, NZ).is_empty());
        assert!(boolean(nothing, &far, BoolOp::Intersect, NZ).is_empty());
        let parts = boolean(nothing, &far, BoolOp::Divide, NZ);
        assert!(parts.len() == 1 && same(&parts[0], &far));
        let rest = boolean(&far, nothing, BoolOp::Subtract, NZ);
        assert!(rest.len() == 1 && same(&rest[0], &far));
    }
}

#[test]
fn points_cluster_the_same_in_any_order() {
    let behind = |v: Point, p: Point| val(v.x) < val(p.x) - 0.1;
    let near = |v: Point, p: Point| {
        let ((x0, y0), (x1, y1)) = (xy(v), xy(p));
        (x1 - x0).hypot(y1 - y0) <= 0.1
    };
    let a = vec![pt(1.0, 0.0), pt(0.0, 0.0), pt(0.05, 0.0), pt(1.0, 5.0), pt(1.0, 0.0)];
    let (verts, of_point) = cluster(&a, &behind, &near);
    assert_eq!(verts, vec![pt(0.0, 0.0), pt(1.0, 0.0), pt(1.0, 5.0)]);
    assert_eq!(of_point, vec![1, 0, 0, 2, 1]);
    let mut b = a.clone();
    b.reverse();
    let (again, of_b) = cluster(&b, &behind, &near);
    assert_eq!(again, verts);
    assert_eq!(of_b, vec![1, 2, 0, 0, 1]);
}

#[test]
fn the_vote_with_the_most_clearance_wins() {
    assert_eq!(elect(&vec![((1, 0), num(0.5)), ((0, 0), num(2.0))]), (0, 0));
    // Ties break on the winding pair itself.
    assert_eq!(elect(&vec![((1, 0), num(0.5)), ((0, 1), num(0.5))]), (0, 1));
    assert_eq!(elect(&Vec::new()), (0, 0));
}

#[test]
fn winding_counts_shared_endpoints_once() {
    // The ray from the sample point passes exactly through the corner where two
    // segments meet, which is where a naive crossing count double-counts or
    // misses.
    let sq = closed_segments(&square(0.0, 0.0, 2.0));
    assert_eq!(winding(&sq, (1.0, 1.0)), 1);
    assert_eq!(winding(&sq, (-1.0, 0.0)), 0, "ray along the bottom edge");
    assert_eq!(winding(&sq, (-1.0, 2.0)), 0, "ray along the top edge");
    assert_eq!(winding(&sq, (-1.0, 3.0)), 0);
    assert_eq!(winding(&sq, (3.0, 1.0)), 0, "behind the ray");

    // A diamond, so the ray from an interior point leaves exactly through a
    // corner -- the case where two segments both claim the crossing.
    let diamond = closed_segments(&Path::from(vec![
        PathEl::MoveTo(pt(0.0, -1.0)),
        PathEl::LineTo(pt(1.0, 0.0)),
        PathEl::LineTo(pt(0.0, 1.0)),
        PathEl::LineTo(pt(-1.0, 0.0)),
        PathEl::ClosePath,
    ]));
    assert_eq!(winding(&diamond, (-0.5, 0.0)), 1, "ray out through a corner");
    assert_eq!(winding(&diamond, (-2.0, 0.0)), 0, "ray in and out at corners");

    // A curve that touches the ray without crossing it counts zero.
    let arch = closed_segments(&Path::from(vec![
        PathEl::MoveTo(pt(0.0, 0.0)),
        PathEl::CurveTo(pt(1.0, 3.0), pt(3.0, 3.0), pt(4.0, 0.0)),
        PathEl::ClosePath,
    ]));
    let peak = at(arch[0], 0.5).1;
    assert_eq!(winding(&arch, (-1.0, peak)), 0, "tangent to the ray");
    // A hair below the peak the ray crosses the arch twice, up and then down,
    // and the point is still outside: the two must cancel.
    assert_eq!(winding(&arch, (-1.0, peak - 1e-9)), 0);
    // Inside. The arch runs over the top and back along the bottom, which is
    // clockwise, so the winding number there is -1.
    assert_eq!(winding(&arch, (2.0, 1.0)), -1);

    // Opposite winding subtracts.
    let hole = Path::from(vec![
        PathEl::MoveTo(pt(3.0, 3.0)),
        PathEl::LineTo(pt(3.0, 7.0)),
        PathEl::LineTo(pt(7.0, 7.0)),
        PathEl::LineTo(pt(7.0, 3.0)),
        PathEl::ClosePath,
    ]);
    let ring = closed_segments(&joined(&square(0.0, 0.0, 10.0), &hole));
    assert_eq!(winding(&ring, (5.0, 5.0)), 0, "the hole");
    assert_eq!(winding(&ring, (1.0, 5.0)), 1);
}

#[test]
fn a_candidate_needs_the_clearance_it_asks_for() {
    let candidates = vec![
        (pt(0.0, 0.0), num(2.0)),
        (pt(1.0, f64::NAN), num(0.0)),
        (pt(2.0, 0.0), num(0.5)),
        (pt(3.0, 0.0), num(0.5)),
        (pt(4.0, 0.0), num(0.5)),
    ];
    // The first is too near for its step, the second is nowhere, the third is
    // as clear as it has to be, and of the last two one is clearer still.
    let clear = |p: Point, _: Real| match val(p.x) as i32 {
        0 => num(1.0),
        2 => num(0.5),
        3 => num(3.0),
        _ => num(2.0),
    };
    let (c, p) = ray::interior_point(&candidates, &clear).unwrap();
    assert_eq!((val(c), xy(p)), (3.0, (3.0, 0.0)));
    assert_eq!(ray::interior_point(&vec![], &clear), None);
    assert_eq!(ray::interior_point(&candidates[..2].to_vec(), &clear), None);
}

#[test]
fn the_clearance_is_that_of_the_nearest_curve() {
    let near = |k: usize| num([5.0, 2.0, 9.0, 1.0][k]);
    let boxes = |k: usize| num([4.0, 0.0, 8.0, 0.5][k]);
    assert_eq!(val(ray::clearance(4, None, None, &boxes, &near)), 1.0);
    assert_eq!(val(ray::clearance(4, None, Some(3), &boxes, &near)), 2.0);
    // Good enough once it is no more than the floor.
    assert_eq!(val(ray::clearance(4, Some(num(3.0)), None, &boxes, &near)), 2.0);
    assert_eq!(val(ray::clearance(0, None, None, &boxes, &near)), f64::INFINITY);
}
