use hane::geom::Point;
use hane::geom::Real;
use hane::geom::Rect;
use hane::path::boolean::Arrangement;
use hane::path::boolean::BoolOp;
use hane::path::boolean::Edge;
use hane::path::boolean::FillRule;
use hane::path::cutting::Meeting;
use hane::path::outline::closed_segments;
use hane::path::outline::CubicBez;
use hane::path::outline::Path;
use hane::path::outline::PathEl;
use hane::path::outline::QuadBez;
use hane::path::outline::Segment;
use hane::path::overlay::tolerance as snapping;
use hane::path::overlay::Tools;
use hane::path::ray;
use std::cell::RefCell;

fn num(v: f64) -> Real {
    Real::from_bits(v.to_bits())
}

fn val(r: Real) -> f64 {
    f64::from_bits(r.bits)
}

fn p(x: f64, y: f64) -> Point {
    Point::new(num(x), num(y))
}

/// A vector in the plane.
#[derive(Clone, Copy, Debug, PartialEq)]
struct V {
    x: f64,
    y: f64,
}

impl V {
    fn of(q: Point) -> V {
        V { x: val(q.x), y: val(q.y) }
    }

    fn point(self) -> Point {
        p(self.x, self.y)
    }

    fn plus(self, o: V) -> V {
        V { x: self.x + o.x, y: self.y + o.y }
    }

    fn minus(self, o: V) -> V {
        V { x: self.x - o.x, y: self.y - o.y }
    }

    fn times(self, k: f64) -> V {
        V { x: self.x * k, y: self.y * k }
    }

    fn dot(self, o: V) -> f64 {
        self.x * o.x + self.y * o.y
    }

    fn cross(self, o: V) -> f64 {
        self.x * o.y - self.y * o.x
    }

    fn perp(self) -> V {
        V { x: -self.y, y: self.x }
    }

    fn length(self) -> f64 {
        self.x.hypot(self.y)
    }

    fn distance(self, o: V) -> f64 {
        self.minus(o).length()
    }

    fn lerp(self, o: V, t: f64) -> V {
        self.times(1.0 - t).plus(o.times(t))
    }

    fn normalize(self) -> V {
        let n = self.length();
        if n > 0.0 { V { x: self.x / n, y: self.y / n } } else { V { x: 0.0, y: 0.0 } }
    }

    fn angle(self) -> f64 {
        self.y.atan2(self.x)
    }

    fn is_finite(self) -> bool {
        self.x.is_finite() && self.y.is_finite()
    }
}

/// The points of a cubic.
fn hull(c: CubicBez) -> [V; 4] {
    [V::of(c.p0), V::of(c.p1), V::of(c.p2), V::of(c.p3)]
}

fn cubic(k: [V; 4]) -> CubicBez {
    CubicBez { p0: k[0].point(), p1: k[1].point(), p2: k[2].point(), p3: k[3].point() }
}

fn elevate(q: QuadBez) -> CubicBez {
    let (a, b, c) = (V::of(q.p0), V::of(q.p1), V::of(q.p2));
    cubic([a, a.lerp(b, 2.0 / 3.0), c.lerp(b, 2.0 / 3.0), c])
}

fn as_cubic(s: Segment) -> CubicBez {
    match s {
        Segment::Line(a, b) => {
            let (u, w) = (V::of(a), V::of(b));
            cubic([u, u.lerp(w, 1.0 / 3.0), u.lerp(w, 2.0 / 3.0), w])
        }
        Segment::Quad(q) => elevate(q),
        Segment::Cubic(c) => c,
    }
}

fn eval(c: CubicBez, t: f64) -> V {
    let k = hull(c);
    let u = 1.0 - t;
    let w = [u * u * u, 3.0 * u * u * t, 3.0 * u * t * t, t * t * t];
    k[0].times(w[0]).plus(k[1].times(w[1])).plus(k[2].times(w[2])).plus(k[3].times(w[3]))
}

fn deriv(c: CubicBez, t: f64) -> V {
    let k = hull(c);
    let u = 1.0 - t;
    let a = k[1].minus(k[0]).times(3.0 * u * u);
    let b = k[2].minus(k[1]).times(6.0 * u * t);
    let d = k[3].minus(k[2]).times(3.0 * t * t);
    a.plus(b).plus(d)
}

fn deriv2(c: CubicBez, t: f64) -> V {
    let k = hull(c);
    let a = k[2].minus(k[1]).minus(k[1].minus(k[0])).times(6.0 * (1.0 - t));
    let b = k[3].minus(k[2]).minus(k[2].minus(k[1])).times(6.0 * t);
    a.plus(b)
}

/// The two parts of a cubic before and after `t`.
fn split(c: CubicBez, t: f64) -> (CubicBez, CubicBez) {
    let k = hull(c);
    let (a, b, d) = (k[0].lerp(k[1], t), k[1].lerp(k[2], t), k[2].lerp(k[3], t));
    let (e, f) = (a.lerp(b, t), b.lerp(d, t));
    let m = e.lerp(f, t);
    (cubic([k[0], a, e, m]), cubic([m, f, d, k[3]]))
}

/// The part of a cubic from `t0` to `t1`, exact at both ends.
fn part(c: CubicBez, t0: f64, t1: f64) -> CubicBez {
    let (l, _) = split(c, t1);
    let (_, r) = split(l, if t1 > 0.0 { t0 / t1 } else { 0.0 });
    let k = hull(r);
    cubic([eval(c, t0), k[1], k[2], eval(c, t1)])
}

/// The parameter of a cubic nearest a point, and the distance there.
fn project(c: CubicBez, q: V) -> (f64, f64) {
    let n = 32;
    let at = |t: f64| eval(c, t).distance(q);
    let samples: Vec<f64> = (0..=n).map(|i| at(i as f64 / n as f64)).collect();
    let mut best = (0.0, f64::INFINITY);
    for i in 0..=n {
        let d = samples[i];
        if d.is_nan() {
            return (0.0, d);
        }
        let left = i == 0 || samples[i - 1] >= d;
        let right = i == n || samples[i + 1] >= d;
        if !left || !right {
            continue;
        }
        let (mut lo, mut hi) = ((i.max(1) - 1) as f64 / n as f64, (i + 1).min(n) as f64 / n as f64);
        // Newton on the derivative of the squared distance, kept in the bracket.
        let mut t = i as f64 / n as f64;
        for _ in 0..40 {
            let (e, v, w) = (eval(c, t).minus(q), deriv(c, t), deriv2(c, t));
            let slope = e.dot(v);
            if slope > 0.0 {
                hi = t;
            } else {
                lo = t;
            }
            let bend = v.dot(v) + e.dot(w);
            let mut next = t - slope / bend;
            if !(next > lo && next < hi) {
                next = 0.5 * (lo + hi);
            }
            if (next - t).abs() <= 1e-16 {
                break;
            }
            t = next;
        }
        for t in [t, i as f64 / n as f64] {
            if at(t) < best.1 {
                best = (t, at(t));
            }
        }
    }
    best
}

/// The distance from a point to a cubic.
fn nearest(c: CubicBez, q: V) -> f64 {
    project(c, q).1
}

fn subsegment(s: Segment, t0: f64, t1: f64) -> Segment {
    match s {
        Segment::Line(a, b) => {
            let (u, w) = (V::of(a), V::of(b));
            Segment::Line(u.lerp(w, t0).point(), u.lerp(w, t1).point())
        }
        _ => Segment::Cubic(part(as_cubic(s), t0, t1)),
    }
}

/// The roots of the quadratic with these Bernstein coefficients.
fn quadratic_roots(a: f64, b: f64, c: f64) -> Vec<f64> {
    let (aa, bb, cc) = (a - 2.0 * b + c, 2.0 * (b - a), a);
    if aa == 0.0 {
        return if bb == 0.0 { Vec::new() } else { vec![-cc / bb] };
    }
    let disc = bb * bb - 4.0 * aa * cc;
    if disc < 0.0 {
        return Vec::new();
    }
    let q = -0.5 * (bb + bb.signum() * disc.sqrt());
    if q == 0.0 {
        return vec![0.0];
    }
    vec![q / aa, cc / q]
}

/// The tight box of a segment.
fn tight(s: Segment) -> Rect {
    let mut r = Rect::empty().union_point(s.start()).union_point(s.end());
    if let Segment::Line(..) = s {
        return r;
    }
    let c = as_cubic(s);
    let k = hull(c);
    let d = [k[1].minus(k[0]), k[2].minus(k[1]), k[3].minus(k[2])];
    let mut ts = quadratic_roots(d[0].x, d[1].x, d[2].x);
    ts.extend(quadratic_roots(d[0].y, d[1].y, d[2].y));
    for t in ts {
        if t > 1e-9 && t < 1.0 - 1e-9 {
            r = r.union_point(eval(c, t).point());
        }
    }
    r
}

/// The snapping distance as a fraction of the geometry it works on.
const SNAP: f64 = 1e-7;
/// How many edges of a face are tried for a point inside it.
const SAMPLE_EDGES: usize = 32;
/// How far each of them is stepped off, as fractions of what is safe.
const SAMPLE_OFFSETS: [f64; 4] = [1.0, 0.25, 0.0625, 0.01];

/// The longer side of a box, or zero when there is nothing to measure.
fn extent(r: Rect) -> f64 {
    let e = (val(r.x1) - val(r.x0)).max(val(r.y1) - val(r.y0));
    if e > 0.0 { e } else { 0.0 }
}

fn inflate(r: Rect, d: f64) -> Rect {
    Rect::new(num(val(r.x0) - d), num(val(r.y0) - d), num(val(r.x1) + d), num(val(r.y1) + d))
}

/// The snapping distance for a pair of paths: relative to the size of the
/// geometry, plus a floor proportional to the distance from the origin.
fn tolerance(a: &Path, b: &Path) -> f64 {
    val(snapping(a, b, &tight, &|r: Rect| {
        let mag = val(r.x0).abs().max(val(r.x1).abs()).max(val(r.y0).abs()).max(val(r.y1).abs());
        num(SNAP * extent(r) + 1e-12 * mag)
    }))
}

/// The piece of a segment between two parameters.
fn piece(s: Segment, t0: Real, t1: Real) -> Segment {
    if val(t0) == 0.0 && val(t1) == 1.0 { s } else { subsegment(s, val(t0), val(t1)) }
}

/// The parameter at which a cubic passes through a point, if it does.
fn passes(c: CubicBez, q: V, tol: f64) -> Option<f64> {
    let b = hull_box(c);
    if q.x < b[0] - tol || q.x > b[2] + tol || q.y < b[1] - tol || q.y > b[3] + tol {
        return None;
    }
    let (t, d) = project(c, q);
    (d <= tol).then_some(t)
}

/// The places where an end of one cubic lies on the other.
fn touching_ends(a: CubicBez, b: CubicBez, tol: f64) -> Vec<(f64, f64)> {
    let mut hits: Vec<(f64, f64)> = Vec::new();
    for t in [0.0, 1.0] {
        hits.extend(passes(b, eval(a, t), tol).map(|u| (t, u)));
        hits.extend(passes(a, eval(b, t), tol).map(|u| (u, t)));
    }
    hits
}

/// The arc two cubics share, as the ranges of their parameters.
fn shared_arc(a: CubicBez, b: CubicBez, tol: f64) -> Option<[f64; 4]> {
    let mut hits = touching_ends(a, b, tol);
    hits.sort_by(|x, y| x.0.total_cmp(&y.0));
    let (first, last) = (*hits.first()?, *hits.last()?);
    if last.0 - first.0 < 1e-6 || (last.1 - first.1).abs() < 1e-6 {
        return None;
    }
    for k in [0.2, 0.4, 0.6, 0.8] {
        let t = first.0 + k * (last.0 - first.0);
        let u = first.1 + k * (last.1 - first.1);
        passes(b, eval(a, t), tol)?;
        passes(a, eval(b, u), tol)?;
    }
    Some([first.0, last.0, first.1, last.1])
}

fn hull_box(c: CubicBez) -> [f64; 4] {
    let k = hull(c);
    let mut r = [k[0].x, k[0].y, k[0].x, k[0].y];
    for q in k {
        r = [r[0].min(q.x), r[1].min(q.y), r[2].max(q.x), r[3].max(q.y)];
    }
    r
}

/// Refines a crossing of two cubics.
fn polish(a: CubicBez, b: CubicBez, start: (f64, f64)) -> (f64, f64) {
    let (mut t, mut u) = start;
    for _ in 0..32 {
        let d = eval(b, u).minus(eval(a, t));
        let (da, db) = (deriv(a, t), deriv(b, u));
        let det = da.cross(db);
        if det == 0.0 || !det.is_finite() {
            break;
        }
        let (dt, du) = (d.cross(db) / det, d.cross(da) / det);
        t = (t + dt).clamp(0.0, 1.0);
        u = (u + du).clamp(0.0, 1.0);
        if dt.abs() < 1e-15 && du.abs() < 1e-15 {
            break;
        }
    }
    (t, u)
}

/// Where two cubics cross, by halving whatever may still meet down to pieces
/// that are as good as straight. Each is tried from its corners, since two curves
/// that nearly touch cross twice in one of them.
fn crossing_params(a: CubicBez, b: CubicBez, scale: f64, tol: f64) -> Vec<(f64, f64)> {
    let mut out: Vec<(f64, f64)> = Vec::new();
    let mut work = vec![(a, 0.0, 1.0, b, 0.0, 1.0)];
    while let Some((p, t0, t1, q, u0, u1)) = work.pop() {
        let (m, n) = (hull_box(p), hull_box(q));
        if m[0] > n[2] + tol || n[0] > m[2] + tol || m[1] > n[3] + tol || n[1] > m[3] + tol {
            continue;
        }
        let size = (m[2] - m[0]).max(m[3] - m[1]).max(n[2] - n[0]).max(n[3] - n[1]);
        let (tm, um) = (0.5 * (t0 + t1), 0.5 * (u0 + u1));
        if size <= 5e-4 * scale {
            for start in [(tm, um), (t0, u0), (t0, u1), (t1, u0), (t1, u1)] {
                let (t, u) = polish(a, b, start);
                let at = eval(a, t);
                let close = at.distance(eval(b, u)) <= tol;
                if close && out.iter().all(|h| eval(a, h.0).distance(at) > 1e-8 * scale) {
                    out.push((t, u));
                }
            }
            continue;
        }
        let ((p0, p1), (q0, q1)) = (split(p, 0.5), split(q, 0.5));
        work.push((p0, t0, tm, q0, u0, um));
        work.push((p0, t0, tm, q1, um, u1));
        work.push((p1, tm, t1, q0, u0, um));
        work.push((p1, tm, t1, q1, um, u1));
    }
    merged(a, b, touching_ends(a, b, tol), out, tol)
}

/// Curves that touch stay within the tolerance of each other for a while, and are
/// found to meet at places all along it: each such stretch is one place, an end
/// of one of them where there is one.
fn merged(
    a: CubicBez,
    b: CubicBez,
    ends: Vec<(f64, f64)>,
    inner: Vec<(f64, f64)>,
    tol: f64,
) -> Vec<(f64, f64)> {
    let mut all: Vec<(f64, f64, bool)> = ends.iter().map(|h| (h.0, h.1, true)).collect();
    all.extend(inner.iter().map(|h| (h.0, h.1, false)));
    all.sort_by(|x, y| x.0.total_cmp(&y.0));
    let mut out: Vec<(f64, f64, bool)> = Vec::new();
    for h in all {
        let joined = out.last().is_some_and(|l| {
            let near = (h.0 - l.0).abs() < 1e-2 && (h.1 - l.1).abs() < 1e-2;
            let along = |k: f64| passes(b, eval(a, l.0 + k * (h.0 - l.0)), 2.0 * tol).is_some();
            near && along(0.25) && along(0.5) && along(0.75)
        });
        match out.last_mut() {
            Some(l) if joined => {
                if h.2 && !l.2 {
                    *l = h;
                }
            }
            _ => out.push(h),
        }
    }
    out.into_iter().map(|h| (h.0, h.1)).collect()
}

/// Where two segments meet.
fn meet(s: Segment, t: Segment) -> Meeting {
    let (a, b) = (as_cubic(s), as_cubic(t));
    let scale = extent(tight(s)).max(extent(tight(t)));
    let mag = hull(a).iter().chain(hull(b).iter()).fold(0.0f64, |m, q| m.max(q.x.abs()).max(q.y.abs()));
    let tol = 1e-11 * scale + 1e-14 * mag;
    match shared_arc(a, b, tol) {
        Some([a0, a1, b0, b1]) => Meeting::Overlap { a: (num(a0), num(a1)), b: (num(b0), num(b1)) },
        None => Meeting::Points(
            crossing_params(a, b, scale, tol).iter().map(|h| (num(h.0), num(h.1))).collect(),
        ),
    }
}

/// The parameters at which a segment folds back on itself or crosses itself.
fn self_cuts(s: Segment) -> Vec<Real> {
    let c = as_cubic(s);
    let k = hull(c);
    let d = [k[1].minus(k[0]).times(3.0), k[2].minus(k[1]).times(3.0), k[3].minus(k[2]).times(3.0)];
    let mut out = Vec::new();
    let scale = d.iter().fold(0.0f64, |m, v| m.max(v.x.abs()).max(v.y.abs()));
    for (roots, other) in [
        (quadratic_roots(d[0].x, d[1].x, d[2].x), true),
        (quadratic_roots(d[0].y, d[1].y, d[2].y), false),
    ] {
        for t in roots {
            if t <= 0.0 || t >= 1.0 {
                continue;
            }
            let v = deriv(c, t);
            let residual = if other { v.y.abs() } else { v.x.abs() };
            if residual <= 1e-9 * scale {
                out.push(t);
            }
        }
    }
    // Writing `c(s) - c(t)` as `(s - t)` times a symmetric quadratic leaves two
    // equations linear in `s + t` and `s^2 + st + t^2`.
    let a = k[3].minus(k[0]).plus(k[1].minus(k[2]).times(3.0));
    let b = k[2].minus(k[1]).minus(k[1].minus(k[0])).times(3.0);
    let k = k[1].minus(k[0]).times(3.0);
    let det = a.x * b.y - a.y * b.x;
    if det != 0.0 {
        let u = (b.x * k.y - k.x * b.y) / det;
        let p = (k.x * a.y - a.x * k.y) / det;
        let disc = 4.0 * u - 3.0 * p * p;
        if disc > 0.0 {
            let r = disc.sqrt();
            let (lo, hi) = (0.5 * (p - r), 0.5 * (p + r));
            if lo > 0.0 && hi < 1.0 {
                out.push(lo);
                out.push(hi);
            }
        }
    }
    out.retain(|t| t.is_finite());
    out.into_iter().map(num).collect()
}

/// The control points of a segment, to order edges by.
fn shape_key(s: Segment) -> Vec<Real> {
    let c = as_cubic(s);
    vec![c.p0.x, c.p0.y, c.p1.x, c.p1.y, c.p2.x, c.p2.y, c.p3.x, c.p3.y]
}

/// Whether two segments over the same ends trace the same arc.
fn same_arc(a: Segment, b: Segment, eps: f64) -> bool {
    let (ca, cb) = (as_cubic(a), as_cubic(b));
    [0.25, 0.5, 0.75]
        .iter()
        .all(|&t| nearest(cb, eval(ca, t)) <= eps && nearest(ca, eval(cb, t)) <= eps)
}

/// Whether two loops that trace the same arc run the same way.
fn same_way(a: Segment, b: Segment) -> bool {
    let (ca, cb) = (as_cubic(a), as_cubic(b));
    let p = eval(ca, 0.25);
    p.distance(eval(cb, 0.25)) <= p.distance(eval(cb, 0.75))
}

/// An angle substitute in `[0, 4)`, increasing counter-clockwise from the
/// positive x axis.
fn pseudo_angle(v: V) -> f64 {
    let m = v.x.abs().max(v.y.abs());
    if !(m > 0.0) || !m.is_finite() {
        return 0.0;
    }
    let (x, y) = (v.x / m, v.y / m);
    let r = x / (x.abs() + y.abs());
    if y >= 0.0 { 1.0 - r } else { 3.0 + r }
}

/// The point on a cubic about `d` away from its start.
fn at_radius(c: CubicBez, d: f64) -> V {
    let k = hull(c);
    if !(d > 0.0) || k[0].distance(k[3]) <= d {
        return k[3];
    }
    let (mut lo, mut hi) = (0.0, 1.0);
    for _ in 0..40 {
        let m = 0.5 * (lo + hi);
        if k[0].distance(eval(c, m)) < d {
            lo = m;
        } else {
            hi = m;
        }
    }
    eval(c, 0.5 * (lo + hi))
}

/// The direction in which a segment leaves its start, measured at a radius and
/// then by its tangent.
fn leave_key(s: Segment, radius: Real) -> (Real, Real) {
    let c = as_cubic(s);
    let k = hull(c);
    let mut tangent = deriv(c, 0.0);
    if !(tangent.length() > 0.0) {
        tangent = k[2].minus(k[0]);
    }
    if !(tangent.length() > 0.0) {
        tangent = k[3].minus(k[0]);
    }
    (num(pseudo_angle(at_radius(c, val(radius)).minus(k[0]))), num(pseudo_angle(tangent)))
}

/// The distance from a point to a box, zero inside it.
fn box_distance(p: V, r: Rect) -> f64 {
    let dx = (val(r.x0) - p.x).max(p.x - val(r.x1)).max(0.0);
    let dy = (val(r.y0) - p.y).max(p.y - val(r.y1)).max(0.0);
    dx.hypot(dy)
}

/// The distance from a point to the nearest of edges.
fn clear_of(edges: &[(CubicBez, Rect)], p: V, floor: Option<Real>, skip: Option<usize>) -> Real {
    ray::clearance(
        edges.len(),
        floor,
        skip,
        &|k: usize| num(box_distance(p, edges[k].1)),
        &|k: usize| num(nearest(edges[k].0, p)),
    )
}

/// How often a segment crosses the ray from a point.
fn crossings_of(s: Segment, p: Point) -> i32 {
    let c = as_cubic(s);
    let h = hull(c);
    let turns = quadratic_roots(h[1].y - h[0].y, h[2].y - h[1].y, h[3].y - h[2].y);
    ray::crossings(
        &ray::monotone_cuts(&turns.into_iter().map(num).collect()),
        p,
        &|t: Real| num(eval(c, val(t)).y),
        &|t: Real| num(eval(c, val(t)).x),
        &|a: Real, b: Real| num(0.5 * (val(a) + val(b))),
    )
}

/// The winding number of closed segments about a point.
fn winding_at(segs: &[Segment], p: V) -> i32 {
    let boxes: Vec<Rect> = segs.iter().map(|&s| tight(s)).collect();
    ray::winding(&boxes, p.point(), &|k: usize| crossings_of(segs[k], p.point()))
}

/// The points to try inside a face, each with the clearance that it needs.
fn candidates_of(arr: &Arrangement, f: usize, cubics: &[(CubicBez, Rect)]) -> Vec<(Point, Real)> {
    let mut out = Vec::new();
    for &h in arr.face(f).iter().take(SAMPLE_EDGES) {
        let seg = arr.half_edge(h);
        let c = as_cubic(seg);
        let mid = eval(c, 0.5);
        let mut dir = deriv(c, 0.5);
        if !(dir.length() > 0.0) {
            let k = hull(c);
            dir = k[3].minus(k[0]);
        }
        let len = dir.length();
        if !(len > 0.0) {
            continue;
        }
        let normal = dir.perp().times(1.0 / len);
        let room = val(clear_of(cubics, mid, None, Some(h / 2)));
        let limit = (0.5 * room).min(0.25 * extent(tight(seg)));
        if !(limit > 0.0) {
            continue;
        }
        for scale in SAMPLE_OFFSETS {
            let step = limit * scale;
            let p = mid.plus(normal.times(step));
            if p.is_finite() {
                out.push((p.point(), num(0.4 * step)));
            }
        }
    }
    out
}

/// What is asked of two paths.
enum Job {
    Arrange,
    Apply(BoolOp, [FillRule; 2]),
}

/// The edges of an arrangement as cubics, with their boxes.
fn cubics_of(arr: &Arrangement) -> Vec<(CubicBez, Rect)> {
    (0..arr.edge_count())
        .map(|e| (as_cubic(arr.edge(e).seg), tight(arr.edge(e).seg)))
        .collect()
}

/// Builds the arrangement of two paths, or applies an operation to them.
fn run(a: &Path, b: &Path, job: Job) -> (Option<Arrangement>, Vec<Path>) {
    let eps = tolerance(a, b);
    // The cubics of the arrangement, computed when the first face is looked at.
    let cubics: RefCell<Vec<(CubicBez, Rect)>> = RefCell::new(Vec::new());
    let tools = Tools {
        eps: num(eps),
        tight,
        grow: |r: Rect| inflate(r, eps),
        boxed: |s: Segment| inflate(tight(s), eps),
        whole: |s: Segment| extent(tight(s)) > eps,
        folds: self_cuts,
        long: |s: Segment, t0: Real, t1: Real| extent(tight(piece(s, t0, t1))) > eps,
        part: piece,
        meet,
        behind: |v: Point, p: Point| val(v.x) < val(p.x) - eps,
        near: |v: Point, p: Point| V::of(v).distance(V::of(p)) <= eps,
        tiny: |s: Segment| extent(tight(s)) <= eps,
        shape: shape_key,
        same_arc: |x: Segment, y: Segment| same_arc(x, y, eps),
        same_way,
        reach: |s: Segment| num(0.25 * extent(tight(s))),
        key: leave_key,
        spots: |arr: &Arrangement, f: usize| {
            if f == 0 {
                *cubics.borrow_mut() = cubics_of(arr);
            }
            candidates_of(arr, f, &cubics.borrow())
        },
        clear: |_: &Arrangement, p: Point, floor: Real| {
            clear_of(&cubics.borrow(), V::of(p), Some(floor), None)
        },
        cross: crossings_of,
        sum: |x: Real, y: Real| num(val(x) + val(y)),
    };
    match job {
        Job::Arrange => (Arrangement::new(a, b, &tools), Vec::new()),
        Job::Apply(op, rules) => {
            (None, a.boolean(b, op, rules, &tools).expect("too many pieces"))
        }
    }
}

/// The arrangement of two paths.
fn arrangement(a: &Path, b: &Path) -> Arrangement {
    run(a, b, Job::Arrange).0.expect("too many pieces")
}

/// `op` applied to two paths, each filled by its own rule.
fn boolean(a: &Path, b: &Path, op: BoolOp, rules: [FillRule; 2]) -> Vec<Path> {
    run(a, b, Job::Apply(op, rules)).1
}

const NZ: [FillRule; 2] = [FillRule::NonZero; 2];

/// The signed area a path encloses: three-point quadrature is exact for cubics.
fn area(path: &Path) -> f64 {
    let nodes = [0.5 - 0.5 * 0.774_596_669_241_483_4, 0.5, 0.5 + 0.5 * 0.774_596_669_241_483_4];
    let weights = [5.0 / 18.0, 8.0 / 18.0, 5.0 / 18.0];
    let mut sum = 0.0;
    for s in closed_segments(path) {
        let c = as_cubic(s);
        for (t, w) in nodes.iter().zip(weights) {
            sum += w * eval(c, *t).x * deriv(c, *t).y;
        }
    }
    sum
}

fn total_area(paths: &[Path]) -> f64 {
    paths.iter().map(area).sum()
}

/// A circle from `n` cubic arcs.
fn circle(cx: f64, cy: f64, r: f64, n: usize) -> Path {
    let mut path = Path::new();
    let step = 2.0 * core::f64::consts::PI / n as f64;
    let k = 4.0 / 3.0 * (step / 4.0).tan();
    let at = |i: usize| {
        let a = step * i as f64;
        (V { x: cx + r * a.cos(), y: cy + r * a.sin() }, V { x: -a.sin(), y: a.cos() })
    };
    path.push(PathEl::MoveTo(at(0).0.point()));
    for i in 0..n {
        let (a, ta) = at(i);
        let (b, tb) = at((i + 1) % n);
        path.push(PathEl::CurveTo(
            a.plus(ta.times(k * r)).point(),
            b.minus(tb.times(k * r)).point(),
            b.point(),
        ));
    }
    path.push(PathEl::ClosePath);
    path
}

fn square(x: f64, y: f64, w: f64) -> Path {
    let mut path = Path::new();
    path.push(PathEl::MoveTo(p(x, y)));
    path.push(PathEl::LineTo(p(x + w, y)));
    path.push(PathEl::LineTo(p(x + w, y + w)));
    path.push(PathEl::LineTo(p(x, y + w)));
    path.push(PathEl::ClosePath);
    path
}

fn one(paths: Vec<Path>) -> Path {
    assert_eq!(paths.len(), 1, "expected exactly one path");
    paths.into_iter().next().unwrap()
}

/// The analytic area of the union of two discs.
fn analytic_union(r1: f64, r2: f64, d: f64) -> f64 {
    let pi = core::f64::consts::PI;
    if d >= r1 + r2 {
        return pi * (r1 * r1 + r2 * r2);
    }
    let a = r1 * r1 * (((d * d + r1 * r1 - r2 * r2) / (2.0 * d * r1)).acos());
    let b = r2 * r2 * (((d * d + r2 * r2 - r1 * r1) / (2.0 * d * r2)).acos());
    let c = 0.5 * ((-d + r1 + r2) * (d + r1 - r2) * (d - r1 + r2) * (d + r1 + r2)).sqrt();
    pi * (r1 * r1 + r2 * r2) - (a + b - c)
}

fn elements(paths: &[Path]) -> Vec<Vec<PathEl>> {
    paths.iter().map(|p| p.elements().to_vec()).collect()
}

#[test]
fn two_overlapping_circles_match_the_analytic_areas() {
    let (r1, r2, d) = (1.0, 0.8, 1.2);
    let a = circle(0.0, 0.0, r1, 16);
    let b = circle(d, 0.0, r2, 16);
    let pi = core::f64::consts::PI;
    let lens = pi * (r1 * r1 + r2 * r2) - analytic_union(r1, r2, d);

    let u = area(&one(boolean(&a, &b, BoolOp::Union, NZ)));
    assert!((u - analytic_union(r1, r2, d)).abs() < 1e-6, "union {u}");
    let i = area(&one(boolean(&a, &b, BoolOp::Intersect, NZ)));
    assert!((i - lens).abs() < 1e-6, "intersect {i} vs {lens}");
    let s = area(&one(boolean(&a, &b, BoolOp::Subtract, NZ)));
    assert!((s - (pi * r1 * r1 - lens)).abs() < 1e-6, "subtract {s}");

    // Divide: three pieces that partition the union exactly.
    let parts = boolean(&a, &b, BoolOp::Divide, NZ);
    assert_eq!(parts.len(), 3);
    assert!((total_area(&parts) - u).abs() < 1e-9);
    assert!((area(&parts[1]) - lens).abs() < 1e-6);
}

#[test]
fn area_is_conserved_between_union_and_intersection() {
    let a = circle(0.0, 0.0, 1.0, 8);
    let b = circle(0.9, 0.4, 1.3, 8);
    let u = area(&one(boolean(&a, &b, BoolOp::Union, NZ)));
    let i = area(&one(boolean(&a, &b, BoolOp::Intersect, NZ)));
    let sum = area(&a) + area(&b);
    assert!((u + i - sum).abs() < 1e-9 * sum.abs(), "{u} + {i} vs {sum}");

    // And subtract splits the first shape in two.
    let s = area(&one(boolean(&a, &b, BoolOp::Subtract, NZ)));
    assert!((s + i - area(&a)).abs() < 1e-9, "{s} + {i} vs {}", area(&a));
}

#[test]
fn identical_inputs_intersect_to_themselves() {
    for a in [square(0.0, 0.0, 2.0), circle(1.0, 1.0, 3.0, 8)] {
        let i = one(boolean(&a, &a, BoolOp::Intersect, NZ));
        // The same segments, possibly starting at a different vertex of the
        // loop, and bit-identical: nothing is rebuilt.
        let mut got: Vec<Segment> = i.segments();
        let mut want: Vec<Segment> = a.segments();
        let key = |s: &Segment| shape_key(*s).iter().map(|v| v.bits).collect::<Vec<u64>>();
        got.sort_by_key(key);
        want.sort_by_key(key);
        assert_eq!(got, want);

        assert!((area(&i) - area(&a)).abs() <= 1e-15 * area(&a).abs());
        assert!(boolean(&a, &a, BoolOp::Subtract, NZ).is_empty());
        let u = one(boolean(&a, &a, BoolOp::Union, NZ));
        assert!((area(&u) - area(&a)).abs() < 1e-12 * area(&a).abs());
    }
}

#[test]
fn combining_a_combined_result_stays_stable() {
    let a = circle(0.0, 0.0, 1.0, 8);
    let b = circle(1.0, 0.0, 1.0, 8);
    let c = circle(0.5, 0.8, 1.0, 8);
    let u = one(boolean(&a, &b, BoolOp::Union, NZ));

    // Re-uniting a result with one of its own inputs changes nothing.
    let again = one(boolean(&u, &a, BoolOp::Union, NZ));
    assert!((area(&again) - area(&u)).abs() < 1e-9 * area(&u), "{} {}", area(&again), area(&u));
    // And with itself.
    let twice = one(boolean(&u, &u, BoolOp::Union, NZ));
    assert!((area(&twice) - area(&u)).abs() < 1e-9 * area(&u));
    // Intersecting a result with one of its inputs gives that input back.
    let back = one(boolean(&u, &a, BoolOp::Intersect, NZ));
    assert!((area(&back) - area(&a)).abs() < 1e-9 * area(&a), "{} {}", area(&back), area(&a));

    // Three-way, built up in two orders: the same region either way.
    let left = one(boolean(&one(boolean(&a, &b, BoolOp::Union, NZ)), &c, BoolOp::Union, NZ));
    let right = one(boolean(&one(boolean(&b, &c, BoolOp::Union, NZ)), &a, BoolOp::Union, NZ));
    assert!((area(&left) - area(&right)).abs() < 1e-9 * area(&left));
}

#[test]
fn classification_does_not_depend_on_which_path_comes_first() {
    let a = circle(0.0, 0.0, 1.0, 8);
    let b = square(0.2, -0.4, 1.5);
    // Union and intersect are symmetric operations, and the arrangement is
    // canonically ordered, so the outputs are identical element for element.
    assert_eq!(
        elements(&boolean(&a, &b, BoolOp::Union, NZ)),
        elements(&boolean(&b, &a, BoolOp::Union, NZ))
    );
    assert_eq!(
        elements(&boolean(&a, &b, BoolOp::Intersect, NZ)),
        elements(&boolean(&b, &a, BoolOp::Intersect, NZ))
    );
    // Subtract is not symmetric, but the two differences plus the intersection
    // make up the union.
    let ab = area(&one(boolean(&a, &b, BoolOp::Subtract, NZ)));
    let ba = area(&one(boolean(&b, &a, BoolOp::Subtract, NZ)));
    let i = area(&one(boolean(&a, &b, BoolOp::Intersect, NZ)));
    let u = area(&one(boolean(&a, &b, BoolOp::Union, NZ)));
    assert!((ab + ba + i - u).abs() < 1e-9 * u, "{ab} {ba} {i} {u}");
}

#[test]
fn every_intersection_becomes_a_vertex() {
    let a = circle(0.0, 0.0, 1.0, 8);
    let b = circle(1.0, 0.2, 1.0, 8);
    let arr = arrangement(&a, &b);
    let mut met = 0;
    for x in closed_segments(&a) {
        for y in closed_segments(&b) {
            if let Meeting::Points(hits) = meet(x, y) {
                for (u, _) in hits {
                    let q = eval(as_cubic(x), val(u));
                    assert!(arr.vertices().iter().any(|v| V::of(*v).distance(q) < 1e-6));
                    met += 1;
                }
            }
        }
    }
    assert!(met >= 2);
}

#[test]
fn no_two_edges_of_an_arrangement_cross_away_from_a_vertex() {
    let check_pair = |a: &Path, b: &Path| {
        let arr = arrangement(a, b);
        let eps = tolerance(a, b).max(1e-12);
        for i in 0..arr.edge_count() {
            for j in i + 1..arr.edge_count() {
                let (x, y) = (arr.half_edge(2 * i), arr.half_edge(2 * j));
                let Meeting::Points(hits) = meet(x, y) else {
                    panic!("coincident edges survived merging: {x:?} {y:?}");
                };
                for (u, _) in hits {
                    let q = eval(as_cubic(x), val(u));
                    let at_vertex = [x.start(), x.end(), y.start(), y.end()]
                        .iter()
                        .any(|&v| V::of(v).distance(q) <= 1e3 * eps);
                    assert!(at_vertex, "crossing away from a vertex at {q:?}");
                }
            }
        }
    };
    check_pair(&circle(0.0, 0.0, 1.0, 8), &circle(1.0, 0.3, 1.0, 8));
    check_pair(&square(0.0, 0.0, 2.0), &square(1.0, 1.0, 2.0));
    check_pair(&square(0.0, 0.0, 2.0), &square(2.0, 0.0, 2.0));
}

#[test]
fn the_same_input_gives_the_same_output() {
    let a = circle(0.0, 0.0, 1.0, 8);
    let b = square(0.3, 0.3, 1.2);
    let first = elements(&boolean(&a, &b, BoolOp::Union, NZ));
    for _ in 0..4 {
        assert_eq!(elements(&boolean(&a, &b, BoolOp::Union, NZ)), first);
    }
}

#[test]
fn pseudo_angle_orders_like_the_real_one() {
    let mut prev = -1.0;
    for k in 0..64 {
        let a = -core::f64::consts::PI + 2.0 * core::f64::consts::PI * f64::from(k) / 64.0;
        let q = pseudo_angle(V { x: a.cos(), y: a.sin() });
        assert!((0.0..4.0).contains(&q), "{q}");
        if a >= 0.0 {
            assert!(q >= prev, "{a} {q} {prev}");
            prev = q;
        }
    }
    assert_eq!(pseudo_angle(V { x: 1.0, y: 0.0 }), 0.0);
    assert_eq!(pseudo_angle(V { x: 0.0, y: 1.0 }), 1.0);
    assert_eq!(pseudo_angle(V { x: -1.0, y: 0.0 }), 2.0);
    assert_eq!(pseudo_angle(V { x: 0.0, y: -1.0 }), 3.0);
    assert_eq!(pseudo_angle(V { x: 0.0, y: 0.0 }), 0.0);
}

/// The face on the left of each half-edge.
fn sides(arr: &Arrangement) -> Vec<usize> {
    let mut side = vec![usize::MAX; 2 * arr.edge_count()];
    for f in 0..arr.face_count() {
        for &h in arr.face(f) {
            side[h] = f;
        }
    }
    side
}

/// How many edges the faces on either side disagree about.
fn winding_violations(arr: &Arrangement, edges: &[Edge]) -> usize {
    let side = sides(arr);
    (0..edges.len())
        .filter(|&e| {
            let (l, r) = (arr.face_winding(side[2 * e]), arr.face_winding(side[2 * e + 1]));
            l[0] - r[0] != edges[e].wind.0 || l[1] - r[1] != edges[e].wind.1
        })
        .count()
}

/// Euler for a plane graph, a face counted once per boundary walk.
fn is_planar(arr: &Arrangement) -> bool {
    arr.face_count() + arr.vertices().len() >= arr.edge_count() + 2
}

#[test]
fn windings_agree_across_every_edge() {
    for (a, b) in [
        (square(0.0, 0.0, 2.0), square(1.0, 1.0, 2.0)),
        (square(0.0, 0.0, 2.0), square(2.0, 0.0, 2.0)),
        (square(0.0, 0.0, 10.0), square(3.0, 3.0, 4.0)),
        (circle(0.0, 0.0, 1.0, 8), circle(1.0, 0.3, 1.0, 8)),
        (circle(0.0, 0.0, 1.0, 16), circle(0.0, 0.0, 1.0, 16)),
    ] {
        let arr = arrangement(&a, &b);
        let edges: Vec<Edge> = (0..arr.edge_count()).map(|e| arr.edge(e)).collect();
        assert_eq!(winding_violations(&arr, &edges), 0);
        // And they are what the paths report just off either side of an edge.
        let side = sides(&arr);
        let src = [closed_segments(&a), closed_segments(&b)];
        for e in 0..arr.edge_count() {
            let c = as_cubic(arr.half_edge(2 * e));
            let (mid, n) = (eval(c, 0.5), deriv(c, 0.5).normalize().perp().times(1e-4));
            let (l, r) = (arr.face_winding(side[2 * e]), arr.face_winding(side[2 * e + 1]));
            for k in 0..2 {
                assert_eq!(l[k], winding_at(&src[k], mid.plus(n)));
                assert_eq!(r[k], winding_at(&src[k], mid.minus(n)));
            }
        }
        assert!(is_planar(&arr));
    }
}

/// A small deterministic generator for the randomised cases.
struct Rng(u64);

impl Rng {
    fn new(seed: u64) -> Rng {
        Rng(seed)
    }

    fn next(&mut self) -> u64 {
        self.0 = self.0.wrapping_add(0x9e37_79b9_7f4a_7c15);
        let mut z = self.0;
        z = (z ^ (z >> 30)).wrapping_mul(0xbf58_476d_1ce4_e5b9);
        z = (z ^ (z >> 27)).wrapping_mul(0x94d0_49bb_1331_11eb);
        z ^ (z >> 31)
    }

    fn below(&mut self, n: u64) -> u64 {
        self.next() % n
    }
}

/// Random closed polygonal and curved subpaths on a small integer grid, so that
/// vertices coincide and edges lie on top of each other often.
fn shape(r: &mut Rng) -> Path {
    let mut path = Path::new();
    for _ in 0..1 + r.below(2) {
        let n = 3 + r.below(4);
        let g = |r: &mut Rng| {
            let x = r.below(5) as f64 - 2.0;
            p(x, r.below(5) as f64 - 2.0)
        };
        path.push(PathEl::MoveTo(g(r)));
        for _ in 0..n {
            match r.below(4) {
                0 => {
                    let c = g(r);
                    path.push(PathEl::QuadTo(c, g(r)));
                }
                1 => {
                    let (a, b) = (g(r), g(r));
                    path.push(PathEl::CurveTo(a, b, g(r)));
                }
                _ => path.push(PathEl::LineTo(g(r))),
            }
        }
        path.push(PathEl::ClosePath);
    }
    path
}

fn check(name: &str, cases: u64, mut ok: impl FnMut(&Path, &Path) -> bool) {
    for i in 0..cases {
        let mut r = Rng::new(i);
        let (a, b) = (shape(&mut r), shape(&mut r));
        assert!(ok(&a, &b), "{name}: case {i}");
    }
}

#[test]
fn random_pairs_do_not_panic_and_stay_finite() {
    check("boolean on random pairs", 150, |a, b| {
        let arr = arrangement(a, b);
        for op in [BoolOp::Union, BoolOp::Intersect, BoolOp::Subtract, BoolOp::Divide] {
            for rules in [
                [FillRule::NonZero; 2],
                [FillRule::EvenOdd; 2],
                [FillRule::NonZero, FillRule::EvenOdd],
            ] {
                for out in arr.apply(op, rules) {
                    for sub in out.subpaths() {
                        if !sub.is_closed() {
                            return false;
                        }
                        let mut cur = sub.start();
                        for s in sub.segments() {
                            if s.start() != cur || !s.end().is_finite() {
                                return false;
                            }
                            cur = s.end();
                        }
                    }
                }
            }
        }
        true
    });
}

#[test]
fn arrangements_are_planar_except_rarely() {
    let bad = (0..200)
        .filter(|&i| {
            let mut r = Rng::new(0x51ed_0000 + i);
            let (a, b) = (shape(&mut r), shape(&mut r));
            let arr = arrangement(&a, &b);
        let edges: Vec<Edge> = (0..arr.edge_count()).map(|e| arr.edge(e)).collect();
            winding_violations(&arr, &edges) != 0 || !is_planar(&arr)
        })
        .count();
    assert!(bad <= 6, "{bad} of 200 arrangements were not planar");
}

/// What the union gains the intersection gives back, whatever the shapes: on the
/// arrangements that are planar. Crossings at so shallow an angle that their error
/// exceeds the snapping distance leave a few that are not.
#[test]
fn planar_random_pairs_conserve_area() {
    let mut planar = 0;
    check("boolean area conservation", 200, |a, b| {
        let arr = arrangement(a, b);
        let edges: Vec<Edge> = (0..arr.edge_count()).map(|e| arr.edge(e)).collect();
        let rules = [FillRule::EvenOdd; 2];
        let u = total_area(&arr.apply(BoolOp::Union, rules)).abs();
        let i = total_area(&arr.apply(BoolOp::Intersect, rules)).abs();
        let d = total_area(&arr.apply(BoolOp::Divide, rules)).abs();
        let scale = 1.0 + u + i;
        // Divide partitions the union, planar or not.
        let parted = (d - u).abs() <= 1e-6 * scale;
        if winding_violations(&arr, &edges) != 0 || !is_planar(&arr) {
            return parted;
        }
        planar += 1;
        parted && u >= i - 1e-6 * scale
    });
    assert!(planar >= 194, "{planar} of 200 arrangements were planar");
}

#[test]
fn random_pairs_are_order_independent() {
    check("boolean order independence", 200, |a, b| {
        let rules = [FillRule::NonZero; 2];
        let (x, y) = (arrangement(a, b), arrangement(b, a));
        [BoolOp::Union, BoolOp::Intersect].iter().all(|&op| {
            let s = total_area(&x.apply(op, rules));
            let t = total_area(&y.apply(op, rules));
            (s - t).abs() <= 1e-9 * (1.0 + s.abs())
        })
    });
}
