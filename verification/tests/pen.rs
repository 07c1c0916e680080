use hane::geom::Point;
use hane::geom::Real;
use hane::geom::Rect;
use hane::path::dash::Tape;
use hane::path::corner;
use hane::path::corner::Corner;
use hane::path::offset::deviation;
use hane::path::offset::offset_cubic;
use hane::path::offset::offset_piece;
use hane::path::offset::roots;
use hane::path::offset::split_params;
use hane::path::offset::Bracket;
use hane::path::outline::CubicBez;
use hane::path::outline::Path;
use hane::path::outline::PathEl;
use hane::path::outline::QuadBez;
use hane::path::outline::Segment;
use hane::path::stroke::Align;
use hane::path::stroke::Cap;
use hane::path::stroke::Distance;
use hane::path::stroke::Join;
use hane::path::stroke::Step;
use hane::path::stroke::StrokeStyle;

fn num(v: f64) -> Real {
    Real::from_bits(v.to_bits())
}

fn val(r: Real) -> f64 {
    f64::from_bits(r.bits)
}

fn p(x: f64, y: f64) -> Point {
    Point::new(num(x), num(y))
}

/// A vector in the plane.
#[derive(Clone, Copy, Debug, PartialEq)]
struct V {
    x: f64,
    y: f64,
}

impl V {
    fn of(q: Point) -> V {
        V { x: val(q.x), y: val(q.y) }
    }

    fn point(self) -> Point {
        p(self.x, self.y)
    }

    fn plus(self, o: V) -> V {
        V { x: self.x + o.x, y: self.y + o.y }
    }

    fn minus(self, o: V) -> V {
        V { x: self.x - o.x, y: self.y - o.y }
    }

    fn times(self, k: f64) -> V {
        V { x: self.x * k, y: self.y * k }
    }

    fn dot(self, o: V) -> f64 {
        self.x * o.x + self.y * o.y
    }

    fn cross(self, o: V) -> f64 {
        self.x * o.y - self.y * o.x
    }

    fn perp(self) -> V {
        V { x: -self.y, y: self.x }
    }

    fn length(self) -> f64 {
        self.x.hypot(self.y)
    }

    fn distance(self, o: V) -> f64 {
        self.minus(o).length()
    }

    fn lerp(self, o: V, t: f64) -> V {
        self.times(1.0 - t).plus(o.times(t))
    }

    fn normalize(self) -> V {
        let n = self.length();
        if n > 0.0 { V { x: self.x / n, y: self.y / n } } else { V { x: 0.0, y: 0.0 } }
    }

    fn angle(self) -> f64 {
        self.y.atan2(self.x)
    }

    fn is_finite(self) -> bool {
        self.x.is_finite() && self.y.is_finite()
    }
}

/// The points of a cubic.
fn hull(c: CubicBez) -> [V; 4] {
    [V::of(c.p0), V::of(c.p1), V::of(c.p2), V::of(c.p3)]
}

fn cubic(k: [V; 4]) -> CubicBez {
    CubicBez { p0: k[0].point(), p1: k[1].point(), p2: k[2].point(), p3: k[3].point() }
}

fn elevate(q: QuadBez) -> CubicBez {
    let (a, b, c) = (V::of(q.p0), V::of(q.p1), V::of(q.p2));
    cubic([a, a.lerp(b, 2.0 / 3.0), c.lerp(b, 2.0 / 3.0), c])
}

fn as_cubic(s: Segment) -> CubicBez {
    match s {
        Segment::Line(a, b) => {
            let (u, w) = (V::of(a), V::of(b));
            cubic([u, u.lerp(w, 1.0 / 3.0), u.lerp(w, 2.0 / 3.0), w])
        }
        Segment::Quad(q) => elevate(q),
        Segment::Cubic(c) => c,
    }
}

fn eval(c: CubicBez, t: f64) -> V {
    let k = hull(c);
    let u = 1.0 - t;
    let w = [u * u * u, 3.0 * u * u * t, 3.0 * u * t * t, t * t * t];
    k[0].times(w[0]).plus(k[1].times(w[1])).plus(k[2].times(w[2])).plus(k[3].times(w[3]))
}

fn deriv(c: CubicBez, t: f64) -> V {
    let k = hull(c);
    let u = 1.0 - t;
    let a = k[1].minus(k[0]).times(3.0 * u * u);
    let b = k[2].minus(k[1]).times(6.0 * u * t);
    let d = k[3].minus(k[2]).times(3.0 * t * t);
    a.plus(b).plus(d)
}

fn deriv2(c: CubicBez, t: f64) -> V {
    let k = hull(c);
    let a = k[2].minus(k[1]).minus(k[1].minus(k[0])).times(6.0 * (1.0 - t));
    let b = k[3].minus(k[2]).minus(k[2].minus(k[1])).times(6.0 * t);
    a.plus(b)
}

/// The two parts of a cubic before and after `t`.
fn split(c: CubicBez, t: f64) -> (CubicBez, CubicBez) {
    let k = hull(c);
    let (a, b, d) = (k[0].lerp(k[1], t), k[1].lerp(k[2], t), k[2].lerp(k[3], t));
    let (e, f) = (a.lerp(b, t), b.lerp(d, t));
    let m = e.lerp(f, t);
    (cubic([k[0], a, e, m]), cubic([m, f, d, k[3]]))
}

/// The part of a cubic from `t0` to `t1`, exact at both ends.
fn part(c: CubicBez, t0: f64, t1: f64) -> CubicBez {
    let (l, _) = split(c, t1);
    let (_, r) = split(l, if t1 > 0.0 { t0 / t1 } else { 0.0 });
    let k = hull(r);
    cubic([eval(c, t0), k[1], k[2], eval(c, t1)])
}

/// The distance from a point to a cubic.
fn nearest(c: CubicBez, q: V) -> f64 {
    let n = 32;
    let at = |t: f64| eval(c, t).distance(q);
    let mut best = f64::INFINITY;
    let samples: Vec<f64> = (0..=n).map(|i| at(f64::from(i) / f64::from(n))).collect();
    for i in 0..=n as usize {
        let d = samples[i];
        if d.is_nan() {
            return d;
        }
        best = best.min(d);
        let left = i == 0 || samples[i - 1] >= d;
        let right = i == n as usize || samples[i + 1] >= d;
        if left && right {
            let mut lo = (i.max(1) - 1) as f64 / f64::from(n);
            let mut hi = ((i + 1).min(n as usize)) as f64 / f64::from(n);
            for _ in 0..80 {
                let (a, b) = (lo + (hi - lo) / 3.0, hi - (hi - lo) / 3.0);
                if at(a) < at(b) { hi = b } else { lo = a }
            }
            best = best.min(at(0.5 * (lo + hi)));
        }
    }
    best
}

/// The arc length of a cubic from its start to `t`.
fn length_to(c: CubicBez, t: f64) -> f64 {
    let nodes = [
        (0.0, 128.0 / 225.0),
        (0.538_469_310_105_683_1, 0.478_628_670_499_366_47),
        (0.906_179_845_938_664, 0.236_926_885_056_189_08),
    ];
    let n = 64;
    let mut sum = 0.0;
    for i in 0..n {
        let a = t * f64::from(i) / f64::from(n);
        let b = t * f64::from(i + 1) / f64::from(n);
        let (m, h) = (0.5 * (a + b), 0.5 * (b - a));
        for (x, w) in nodes {
            let mut s = deriv(c, m + h * x).length();
            if x > 0.0 {
                s += deriv(c, m - h * x).length();
            }
            sum += h * w * s;
        }
    }
    sum
}

fn length(s: Segment) -> f64 {
    match s {
        Segment::Line(a, b) => V::of(a).distance(V::of(b)),
        _ => length_to(as_cubic(s), 1.0),
    }
}

fn t_at_length(s: Segment, len: f64) -> f64 {
    if let Segment::Line(..) = s {
        let total = length(s);
        return if total > 0.0 { (len / total).clamp(0.0, 1.0) } else { 0.0 };
    }
    let c = as_cubic(s);
    if len <= 0.0 {
        return 0.0;
    }
    if len >= length_to(c, 1.0) {
        return 1.0;
    }
    let (mut lo, mut hi) = (0.0, 1.0);
    for _ in 0..60 {
        let m = 0.5 * (lo + hi);
        if length_to(c, m) < len { lo = m } else { hi = m }
    }
    0.5 * (lo + hi)
}

fn subsegment(s: Segment, t0: f64, t1: f64) -> Segment {
    match s {
        Segment::Line(a, b) => {
            let (u, w) = (V::of(a), V::of(b));
            Segment::Line(u.lerp(w, t0).point(), u.lerp(w, t1).point())
        }
        _ => Segment::Cubic(part(as_cubic(s), t0, t1)),
    }
}

fn point_at(s: Segment, t: f64) -> V {
    match s {
        Segment::Line(a, b) => V::of(a).lerp(V::of(b), t),
        _ => eval(as_cubic(s), t),
    }
}

/// The roots of the quadratic with these Bernstein coefficients.
fn quadratic_roots(a: f64, b: f64, c: f64) -> Vec<f64> {
    let (aa, bb, cc) = (a - 2.0 * b + c, 2.0 * (b - a), a);
    if aa == 0.0 {
        return if bb == 0.0 { Vec::new() } else { vec![-cc / bb] };
    }
    let disc = bb * bb - 4.0 * aa * cc;
    if disc < 0.0 {
        return Vec::new();
    }
    let q = -0.5 * (bb + bb.signum() * disc.sqrt());
    if q == 0.0 {
        return vec![0.0];
    }
    vec![q / aa, cc / q]
}

/// The tight box of a segment.
fn tight(s: Segment) -> Rect {
    let mut r = Rect::empty().union_point(s.start()).union_point(s.end());
    if let Segment::Line(..) = s {
        return r;
    }
    let c = as_cubic(s);
    let k = hull(c);
    let d = [k[1].minus(k[0]), k[2].minus(k[1]), k[3].minus(k[2])];
    let mut ts = quadratic_roots(d[0].x, d[1].x, d[2].x);
    ts.extend(quadratic_roots(d[0].y, d[1].y, d[2].y));
    for t in ts {
        if t > 1e-9 && t < 1.0 - 1e-9 {
            r = r.union_point(eval(c, t).point());
        }
    }
    r
}

/// The arc about `center` from `from` to `to`, turning `ccw`.
fn arc(center: V, from: V, to: V, ccw: bool) -> Vec<Segment> {
    let mut out = Vec::new();
    if from == to {
        return out;
    }
    let tau = std::f64::consts::TAU;
    let r = from.minus(center).length();
    let first = from.minus(center).angle();
    let mut sweep = to.minus(center).angle() - first;
    if ccw && sweep < 0.0 {
        sweep += tau;
    } else if !ccw && sweep > 0.0 {
        sweep -= tau;
    }
    let n = (sweep.abs() / std::f64::consts::FRAC_PI_2 - 1e-9).ceil().max(1.0);
    let step = sweep / n;
    let k = 4.0 / 3.0 * (step / 4.0).tan() * r;
    let mut cur = from;
    let mut i = 0.0;
    while i < n {
        let (a, b) = (first + i * step, first + (i + 1.0) * step);
        let end = if i + 1.0 < n {
            center.plus(V { x: b.cos(), y: b.sin() }.times(r))
        } else {
            to
        };
        let c0 = cur.plus(V { x: -a.sin(), y: a.cos() }.times(k));
        let c1 = end.minus(V { x: -b.sin(), y: b.cos() }.times(k));
        let curve = [cur, c0, c1, end];
        out.push(if curve.iter().all(|q| q.is_finite()) {
            Segment::Cubic(cubic(curve))
        } else {
            Segment::Line(cur.point(), end.point())
        });
        cur = end;
        i += 1.0;
    }
    out
}

/// The unit direction of travel at `t`, on the leaving or the arriving side.
fn tangent(c: CubicBez, t: f64, leaving: bool) -> V {
    let k = hull(c);
    let v = deriv(c, t);
    let scale = k[1].distance(k[0]) + k[2].distance(k[1]) + k[3].distance(k[2]);
    if v.length() > 1e-9 * scale {
        return v.normalize();
    }
    let a = deriv2(c, t);
    let a = if leaving { a } else { a.times(-1.0) };
    if a.x != 0.0 || a.y != 0.0 {
        return a.normalize();
    }
    k[3].minus(k[0]).normalize()
}

fn offset_at(c: CubicBez, d: f64, t: f64) -> V {
    eval(c, t).plus(tangent(c, t, true).perp().times(d))
}

const MARGIN: f64 = 0.5;
const SAMPLES: u32 = 15;
const ROOT_SAMPLES: u32 = 24;
const MIN_SPAN: f64 = 1e-9;

fn fit_of(c: CubicBez, d: f64, a: V, t0: V, b: V, t1: V) -> CubicBez {
    let r = offset_at(c, d, 0.5).minus(a.lerp(b, 0.5)).times(8.0 / 3.0);
    let k = t0.cross(t1);
    let chord = a.distance(b);
    let (alpha, beta) = (r.cross(t1) / k, r.cross(t0) / k);
    let (alpha, beta) = if alpha > 0.0 && beta > 0.0 && alpha.max(beta) < 10.0 * chord {
        (alpha, beta)
    } else {
        (chord / 3.0, chord / 3.0)
    };
    cubic([a, a.plus(t0.times(alpha)), b.minus(t1.times(beta)), b])
}

/// The root between two parameters at which a function differs in sign.
fn bisected(f: &dyn Fn(f64) -> f64, a: f64, b: f64) -> f64 {
    let (mut a, mut b) = (a, b);
    let negative = f(a) < 0.0;
    loop {
        let m = 0.5 * (a + b);
        if m == a || m == b {
            return m;
        }
        if (f(m) < 0.0) == negative { a = m } else { b = m }
    }
}

fn found(f: &dyn Fn(f64) -> f64) -> Vec<Real> {
    let at = |i: usize| i as f64 / f64::from(ROOT_SAMPLES);
    let values: Vec<Real> = (0..=ROOT_SAMPLES as usize).map(|i| num(f(at(i)))).collect();
    roots(&values)
        .into_iter()
        .map(|b| match b {
            Bracket::At(i) => num(at(i)),
            Bracket::Before(i) => num(bisected(f, at(i - 1), at(i))),
        })
        .collect()
}

fn splits_of(c: CubicBez, d: f64) -> Vec<Real> {
    let mut all = found(&|t| deriv(c, t).dot(deriv2(c, t)));
    all.extend(found(&|t| {
        let v = deriv(c, t);
        let s = v.length();
        s * s * s + d * v.cross(deriv2(c, t))
    }));
    let near = |a: Real, b: Real| val(b) - val(a) < MIN_SPAN;
    split_params(&all, num(MIN_SPAN), num(1.0 - MIN_SPAN), &near)
}

fn curve_offset(c: CubicBez, d: f64, tol: f64) -> Vec<Segment> {
    let mut out = Vec::new();
    offset_cubic(
        &|a: Real, b: Real| part(c, val(a), val(b)),
        &|t: Real, leaving: bool| tangent(c, val(t), leaving).point(),
        &|q: Point, t: Point| V::of(q).plus(V::of(t).perp().times(d)).point(),
        &|c: CubicBez, a: Point, t0: Point, b: Point, t1: Point| {
            fit_of(c, d, V::of(a), V::of(t0), V::of(b), V::of(t1))
        },
        &|c: CubicBez, fit: CubicBez| {
            let devs: Vec<Real> = (1..=SAMPLES)
                .map(|i| {
                    let t = f64::from(i) / f64::from(SAMPLES + 1);
                    num(nearest(fit, offset_at(c, d, t)))
                })
                .collect();
            deviation(&devs)
        },
        num(tol * MARGIN),
        &|c: CubicBez| split(c, 0.5),
        &|c: CubicBez| tangent(c, 0.5, true).point(),
        &|a: Point, b: Point| num(V::of(a).distance(V::of(b))),
        &|q: Point, from: Point, to: Point, arriving: Point| {
            let (q, from, to) = (V::of(q), V::of(from), V::of(to));
            let ahead = V::of(arriving).times(d.abs());
            arc(q, from, to, from.minus(q).cross(ahead) > 0.0)
        },
        num(tol),
        &splits_of(c, d),
        &mut out,
    );
    out
}

fn offset(s: Segment, d: f64, tol: f64) -> Vec<Segment> {
    let mut out = Vec::new();
    s.offset(
        num(d),
        &|a: Point, b: Point| {
            let (a, b) = (V::of(a), V::of(b));
            let n = b.minus(a).normalize().perp().times(d);
            Segment::Line(a.plus(n).point(), b.plus(n).point())
        },
        &elevate,
        &|c: CubicBez| curve_offset(c, d, tol),
        &mut out,
    );
    out
}

fn start_tangent(s: Segment) -> V {
    match s {
        Segment::Line(a, b) => V::of(b).minus(V::of(a)).normalize(),
        _ => tangent(as_cubic(s), 0.0, true),
    }
}

fn end_tangent(s: Segment) -> V {
    match s {
        Segment::Line(a, b) => V::of(b).minus(V::of(a)).normalize(),
        _ => tangent(as_cubic(s), 1.0, false),
    }
}

fn half_circle(q: V, t: V, d: f64) -> Vec<Segment> {
    let n = t.perp().times(d);
    arc(q, q.plus(n), q.minus(n), d < 0.0)
}

fn chord(s: Segment) -> f64 {
    V::of(s.start()).distance(V::of(s.end()))
}

fn corner_at(at: Point, prev: Segment, next: Segment, d: f64) -> (Corner, Vec<Segment>) {
    let q = V::of(at);
    let (t0, t1) = (end_tangent(prev), start_tangent(next));
    let (a, b) = (q.plus(t0.perp().times(d)), q.plus(t1.perp().times(d)));
    let half = (0.5 * (1.0 + t0.dot(t1))).max(0.0).sqrt();
    let miter = q.plus(t0.perp().plus(t1.perp()).normalize().times(d / half));
    let corner = Corner {
        at,
        t0: t0.point(),
        t1: t1.point(),
        gap: num(a.distance(b)),
        side: num(t0.cross(t1) * d),
        ratio: num(1.0 / half),
        miter: miter.point(),
        spread: num(miter.distance(q)),
        reach: num(chord(prev).min(chord(next))),
        to: b.point(),
    };
    (corner, arc(q, a, b, t0.cross(t1) > 0.0))
}

fn draw(step: Step, style: &StrokeStyle, tol: f64) -> Vec<PathEl> {
    let w = val(style.width);
    let signed = |d: Distance| match d {
        Distance::Half => w * 0.5,
        Distance::Whole => w,
        Distance::MinusWhole => -w,
    };
    match step {
        Step::Dot(at) => {
            let (q, d) = (V::of(at), w * 0.5);
            let t = V { x: 1.0, y: 0.0 };
            let mut round = half_circle(q, t, d);
            round.extend(half_circle(q, t.times(-1.0), d));
            let square = [
                p(q.x - d, q.y - d),
                p(q.x + d, q.y - d),
                p(q.x + d, q.y + d),
                p(q.x - d, q.y + d),
            ];
            corner::dot(style.cap, square, &round)
        }
        Step::Offset { seg, d, begin } => {
            let chain = offset(seg, signed(d), tol);
            let mut els = Vec::new();
            if begin {
                els.push(PathEl::MoveTo(chain.first().map_or(seg.start(), |s| s.start())));
            }
            els.extend(chain.iter().map(|s| s.element()));
            els
        }
        Step::Corner { at, prev, next, d } => {
            let (c, round) = corner_at(at, prev, next, signed(d));
            corner::join(c, style.join, style.miter_limit, num(tol), &round)
        }
        Step::Finish { at, along } => {
            let (q, t, d) = (V::of(at), end_tangent(along), w * 0.5);
            let n = t.perp().times(d);
            let e = t.times(d.abs());
            corner::cap(
                style.cap,
                q.plus(n).plus(e).point(),
                q.minus(n).plus(e).point(),
                q.minus(n).point(),
                &half_circle(q, t, d),
            )
        }
        Step::Draw(el) => vec![el],
    }
}

/// Twice the area that segments enclose, with its sign.
fn signed_area(segs: &[Segment]) -> f64 {
    let h = 0.387_298_334_620_741_7;
    let mut area = 0.0;
    for &s in segs {
        let c = as_cubic(s);
        for (t, w) in [(0.5 - h, 5.0 / 18.0), (0.5, 8.0 / 18.0), (0.5 + h, 5.0 / 18.0)] {
            area += w * eval(c, t).cross(deriv(c, t));
        }
    }
    area * 0.5
}

/// What is asked of a path and a pen.
enum Job<'a> {
    Dash(&'a [f64], f64),
    Stroke(&'a StrokeStyle),
}

/// Cuts a path into dashes, or strokes it.
fn drawn(path: &Path, job: Job<'_>) -> Path {
    let tape = Tape {
        length: |s: Segment| num(length(s)),
        part: |s: Segment, pos: Real, take: Real| {
            subsegment(s, t_at_length(s, val(pos)), t_at_length(s, val(pos) + val(take)))
        },
        spot: |s: Segment, pos: Real| point_at(s, t_at_length(s, val(pos))).point(),
        minus: |a: Real, b: Real| num(val(a) - val(b)),
        plus: |a: Real, b: Real| num(val(a) + val(b)),
    };
    let wrap = |offset: Real, period: Real| num(val(offset).rem_euclid(val(period)));
    let result = match job {
        Job::Dash(pattern, offset) => {
            let entries: Vec<Real> = pattern.iter().map(|&v| num(v)).collect();
            path.dash(&entries, num(offset), &tape, &wrap, u64::MAX)
        }
        Job::Stroke(style) => {
            let tol = val(style.usable_tolerance());
            let clockwise = |segs: Vec<Segment>| signed_area(&segs) < 0.0;
            let outline = |s: Step| draw(s, style, tol);
            path.stroke(style, &tape, &wrap, u64::MAX, &clockwise, &outline)
        }
    };
    result.expect("more dashes than can be counted")
}

fn dash(path: &Path, pattern: &[f64], offset: f64) -> Path {
    drawn(path, Job::Dash(pattern, offset))
}

fn stroke(path: &Path, style: &StrokeStyle) -> Path {
    drawn(path, Job::Stroke(style))
}

struct Rng(u64);

impl Rng {
    fn next(&mut self) -> u64 {
        self.0 = self.0.wrapping_mul(6364136223846793005).wrapping_add(1442695040888963407);
        self.0 >> 33
    }

    fn below(&mut self, n: u64) -> u64 {
        self.next() % n
    }

    fn unit(&mut self) -> f64 {
        self.next() as f64 / (1u64 << 31) as f64
    }

    fn coordinate(&mut self) -> f64 {
        let scale = 10f64.powi(self.below(9) as i32 - 2);
        (self.unit() - 0.5) * scale
    }

    fn point(&mut self) -> Point {
        let x = self.coordinate();
        let y = self.coordinate();
        p(x, y)
    }

    fn cubic(&mut self) -> CubicBez {
        CubicBez { p0: self.point(), p1: self.point(), p2: self.point(), p3: self.point() }
    }
}

fn bez(p0: Point, p1: Point, p2: Point, p3: Point) -> CubicBez {
    CubicBez { p0, p1, p2, p3 }
}

fn line(a: Point, b: Point) -> Path {
    Path::from(vec![PathEl::MoveTo(a), PathEl::LineTo(b)])
}

/// The corner path every join test uses: right along x, then up.
fn corner_path(turn: f64) -> Path {
    Path::from(vec![
        PathEl::MoveTo(p(-10.0, 0.0)),
        PathEl::LineTo(p(0.0, 0.0)),
        PathEl::LineTo(p(10.0 * turn.cos(), 10.0 * turn.sin())),
    ])
}

fn style(width: f64) -> StrokeStyle {
    StrokeStyle { width: num(width), tolerance: num(1e-6), ..StrokeStyle::default() }
}

/// Every point the outline passes through, densely.
fn samples(path: &Path) -> Vec<V> {
    let mut out = Vec::new();
    for s in path.segments() {
        for i in 0..=32 {
            out.push(point_at(s, f64::from(i) / 32.0));
        }
    }
    out
}

/// The nonzero winding number of `path` about a point, off a flattened
/// polygon.
fn winding_about(path: &Path, x: f64, y: f64) -> i32 {
    let q = V { x, y };
    let mut w = 0;
    for sub in path.subpaths() {
        let mut poly = vec![V::of(sub.start())];
        for s in sub.segments() {
            for i in 1..=256 {
                poly.push(point_at(s, f64::from(i) / 256.0));
            }
        }
        poly.push(poly[0]);
        for e in poly.windows(2) {
            let (a, b) = (e[0], e[1]);
            if (a.y <= q.y) != (b.y <= q.y) {
                let side = b.minus(a).cross(q.minus(a));
                if (side > 0.0) == (b.y > a.y) {
                    w += if b.y > a.y { 1 } else { -1 };
                }
            }
        }
    }
    w
}

fn bounds(path: &Path) -> Rect {
    path.bounding_box(&tight)
}

fn rect(x0: f64, y0: f64, x1: f64, y1: f64) -> Rect {
    Rect::new(num(x0), num(y0), num(x1), num(y1))
}

/// Whether two boxes are the same, with one zero for both.
fn same_box(a: Rect, b: Rect) -> bool {
    a.x0.equal(b.x0) && a.y0.equal(b.y0) && a.x1.equal(b.x1) && a.y1.equal(b.y1)
}

fn max_distance_to(path: &Path, q: V) -> f64 {
    samples(path).into_iter().fold(0.0f64, |m, s| m.max(s.distance(q)))
}

/// How far the outline reaches past the corner along the outward bisector.
fn outer_reach(path: &Path, turn: f64) -> f64 {
    let t0 = V { x: 1.0, y: 0.0 };
    let t1 = V { x: turn.cos(), y: turn.sin() };
    let u = t0.perp().plus(t1.perp()).normalize().times(-1.0);
    samples(path).into_iter().fold(0.0f64, |m, s| m.max(s.dot(u)))
}

const ORIGIN: V = V { x: 0.0, y: 0.0 };

// ----------------------------------------------------------------- offsets

/// The offset of `seg`, and the largest distance by which it misses the true
/// offset, sampled along the source's normals.
fn offset_and_error(seg: Segment, d: f64, tol: f64) -> (Vec<Segment>, f64) {
    let out = offset(seg, d, tol);
    let c = as_cubic(seg);
    let mut worst = 0.0f64;
    for i in 0..=100 {
        let target = offset_at(c, d, f64::from(i) / 100.0);
        let mut best = f64::INFINITY;
        for s in &out {
            best = best.min(nearest(as_cubic(*s), target));
        }
        worst = worst.max(best);
    }
    (out, worst)
}

fn all_finite(segs: &[Segment]) -> bool {
    segs.iter().all(|s| {
        hull(as_cubic(*s)).iter().all(|q| q.is_finite())
            && s.start().is_finite()
            && s.end().is_finite()
    })
}

/// The chain is one connected curve: each piece starts where the last ended.
fn connected(segs: &[Segment]) -> bool {
    segs.windows(2).all(|w| {
        let (a, b) = (V::of(w[0].end()), V::of(w[1].start()));
        a.distance(b) < 1e-9 * (1.0 + a.length())
    })
}

#[test]
fn a_line_offsets_to_a_parallel_line_exactly() {
    let out = offset(Segment::Line(p(1.0, 2.0), p(5.0, 2.0)), 3.0, 0.01);
    assert_eq!(out, vec![Segment::Line(p(1.0, 5.0), p(5.0, 5.0))]);

    // And at an angle, where the parallel is still exact in the sense that
    // matters: both ends are exactly one normal away.
    let out = offset(Segment::Line(p(0.0, 0.0), p(3.0, 4.0)), -5.0, 0.01);
    assert_eq!(out, vec![Segment::Line(p(4.0, -3.0), p(7.0, 1.0))]);
}

#[test]
fn offset_by_zero_returns_the_original() {
    let segs = [
        Segment::Line(p(0.0, 0.0), p(1.0, 1.0)),
        Segment::Quad(QuadBez { p0: p(0.0, 0.0), p1: p(1.0, 2.0), p2: p(2.0, 0.0) }),
        Segment::Cubic(bez(p(0.0, 0.0), p(1.0, 2.0), p(2.0, 2.0), p(3.0, 0.0))),
    ];
    for seg in segs {
        assert_eq!(offset(seg, 0.0, 0.01), vec![seg]);
        assert_eq!(offset(seg, -0.0, 0.01), vec![seg]);
    }
}

#[test]
fn a_circular_arc_offsets_to_a_concentric_arc() {
    // The standard quarter circle of radius 1 about the origin.
    let k = 4.0 / 3.0 * (std::f64::consts::FRAC_PI_8).tan();
    let quarter = bez(p(1.0, 0.0), p(1.0, k), p(k, 1.0), p(0.0, 1.0));
    // The arc runs counter-clockwise, so its left -- a positive distance -- is
    // the inside, and the concentric radius is |1 - d|. The last two distances
    // pass the centre of curvature.
    for d in [0.25, -0.5, 1.5, 3.0] {
        for s in offset(Segment::Cubic(quarter), d, 1e-6) {
            let Segment::Cubic(c) = s else {
                panic!("expected cubics, got {s:?}");
            };
            for i in 0..=20 {
                let r = eval(c, f64::from(i) / 20.0).length();
                assert!(
                    (r - (1.0 - d).abs()).abs() < 3e-4,
                    "d = {d}, radius {r} is not {}",
                    (1.0 - d).abs()
                );
            }
        }
    }
}

#[test]
fn deviation_stays_within_tolerance() {
    // An S with a flat middle, a near-straight piece and a tight bend: three
    // regimes the fit handles differently.
    let seg = Segment::Cubic(bez(p(0.0, 0.0), p(60.0, 40.0), p(-20.0, 40.0), p(40.0, 0.0)));
    for tol in [1.0, 1e-2, 1e-4] {
        for d in [0.5, 4.0, -7.0] {
            let (out, err) = offset_and_error(seg, d, tol);
            assert!(err <= tol, "tol {tol}, d {d}: deviation {err}");
            assert!(connected(&out), "tol {tol}, d {d}: chain has a gap");
        }
    }
}

#[test]
fn a_cusp_produces_no_infinities_and_a_cap() {
    // The derivative vanishes in the middle: the classic cubic cusp, tangent
    // reversing at the tip.
    let cusp = bez(p(0.0, 0.0), p(2.0, 2.0), p(-2.0, 2.0), p(0.0, 0.0));
    let out = offset(Segment::Cubic(cusp), 0.5, 1e-3);
    assert!(all_finite(&out), "{out:?}");
    assert!(connected(&out), "{out:?}");

    // The outline must stand off the tip by the offset distance all the way
    // round -- that is the cap being there.
    let tip = eval(cusp, 0.5);
    let mut close: f64 = f64::INFINITY;
    for s in &out {
        for i in 0..=40 {
            close = close.min(point_at(*s, f64::from(i) / 40.0).distance(tip));
        }
    }
    assert!((close - 0.5).abs() < 1e-2, "outline reaches {close} of the cusp");
}

#[test]
fn curvature_tighter_than_the_offset_is_split_at_the_root() {
    // A hairpin: minimum curvature radius well under 1.
    let hairpin = bez(p(0.0, 0.0), p(6.0, 0.0), p(6.0, 1.0), p(0.0, 1.0));
    let inside = offset(Segment::Cubic(hairpin), -1.0, 1e-3);
    assert!(all_finite(&inside), "{inside:?}");
    assert!(connected(&inside), "{inside:?}");
    let splits = splits_of(hairpin, -1.0);
    assert!(splits.len() >= 2, "expected the two curvature roots, got {splits:?}");
    for w in splits.windows(2) {
        assert!(val(w[1]) - val(w[0]) >= MIN_SPAN);
    }
}

#[test]
fn a_degenerate_segment_offsets_to_something_finite() {
    let point = bez(p(3.0, 3.0), p(3.0, 3.0), p(3.0, 3.0), p(3.0, 3.0));
    let out = offset(Segment::Cubic(point), 2.0, 1e-3);
    assert!(all_finite(&out), "{out:?}");
    let out = offset(Segment::Line(p(3.0, 3.0), p(3.0, 3.0)), 2.0, 1e-3);
    assert_eq!(out, vec![Segment::Line(p(3.0, 3.0), p(3.0, 3.0))]);
}

fn extent_of(c: CubicBez) -> f64 {
    let k = hull(c);
    k[1].distance(k[0]) + k[2].distance(k[1]) + k[3].distance(k[2])
}

#[test]
fn every_offset_is_finite_and_connected() {
    let mut r = Rng(3);
    for _ in 0..60 {
        let (c, u) = (r.cubic(), r.unit());
        let scale = extent_of(c);
        let d = (u - 0.5) * scale;
        let out = offset(Segment::Cubic(c), d, 1e-6 * scale.max(1.0));
        assert!(!out.is_empty() && all_finite(&out), "{c:?} by {d}");
        assert!(connected(&out), "{c:?} by {d}");
    }
}

#[test]
fn sampled_normals_stay_within_tolerance_for_random_curves() {
    let mut r = Rng(8);
    for _ in 0..30 {
        let mut q = || (r.unit() - 0.5) * 200.0;
        let c = bez(p(q(), q()), p(q(), q()), p(q(), q()), p(q(), q()));
        let scale = extent_of(c);
        let d = (r.unit() - 0.5) * 0.2 * scale;
        let tol = 1e-4 * scale;
        let (_, err) = offset_and_error(Segment::Cubic(c), d, tol);
        // Where the speed nearly vanishes the offset swings through most of a
        // half turn inside a very narrow parameter window.
        let (mut lo, mut hi) = (f64::INFINITY, 0.0f64);
        for i in 0..=64 {
            let v = deriv(c, f64::from(i) / 64.0).length();
            lo = lo.min(v);
            hi = hi.max(v);
        }
        let slack = if lo < 1e-2 * hi { 8.0 } else { 1.0 };
        assert!(err <= tol * slack, "{c:?} by {d}: {err} against {tol}");
    }
}

#[test]
fn a_fit_that_misses_everywhere_ends_in_chords() {
    // No proposal is close enough, so the work runs out: one chord for each of
    // the pieces that are left.
    let c = bez(p(0.0, 0.0), p(1.0, 0.0), p(2.0, 0.0), p(3.0, 0.0));
    let mut out = vec![Segment::Line(p(9.0, 9.0), p(9.0, 9.0))];
    let side = p(1.0, 0.0);
    offset_piece(
        &|q: Point, t: Point| V::of(q).plus(V::of(t).perp()).point(),
        &|_: CubicBez, a: Point, _: Point, b: Point, _: Point| bez(a, a, b, b),
        &|_: CubicBez, _: CubicBez| num(f64::NAN),
        num(1.0),
        &|c: CubicBez| split(c, 0.5),
        &|_: CubicBez| p(1.0, 0.0),
        c,
        3,
        side,
        side,
        &mut out,
    );
    assert_eq!(out.len(), 9);
    assert_eq!(out[0], Segment::Line(p(9.0, 9.0), p(9.0, 9.0)));
    assert!(out.iter().all(|s| matches!(s, Segment::Line(..))));
    assert_eq!(out[1].start(), p(0.0, 1.0));
    assert_eq!(out[8].end(), p(3.0, 1.0));
    for w in out[1..].windows(2) {
        assert_eq!(w[0].end(), w[1].start());
    }
}

#[test]
fn roots_are_bracketed_by_samples() {
    let values: Vec<Real> = [0.0, -1.0, -2.0, 3.0, 0.0, 4.0, f64::NAN, 1.0, -0.0]
        .iter()
        .map(|&v| num(v))
        .collect();
    // The zero at the start and the one at the end are no roots to split at;
    // what is not a number is neither negative nor zero.
    assert_eq!(roots(&values), vec![Bracket::Before(3), Bracket::At(4)]);
    assert_eq!(roots(&vec![]), vec![]);
    assert_eq!(roots(&vec![num(0.0)]), vec![]);
}

#[test]
fn splits_are_sorted_inside_and_apart() {
    let all: Vec<Real> = [0.7, -1.0, 0.2, 0.2000001, 1.5, 0.5, f64::NAN, 0.0]
        .iter()
        .map(|&v| num(v))
        .collect();
    let near = |a: Real, b: Real| val(b) - val(a) < 1e-3;
    let got: Vec<f64> = split_params(&all, num(1e-9), num(1.0), &near).into_iter().map(val).collect();
    assert_eq!(got, vec![0.2, 0.5, 0.7]);
}

#[test]
fn a_deviation_that_is_not_a_number_is_not_swallowed() {
    let of = |v: &[f64]| val(deviation(&v.iter().map(|&d| num(d)).collect()));
    assert_eq!(of(&[]), 0.0);
    assert_eq!(of(&[0.25, 2.0, 1.0]), 2.0);
    assert!(of(&[0.25, f64::NAN, 1.0]).is_nan());
}

// ----------------------------------------------------------------- strokes

#[test]
fn a_straight_line_strokes_to_its_rectangle() {
    let out = stroke(&line(p(0.0, 0.0), p(10.0, 0.0)), &style(4.0));
    assert!(same_box(bounds(&out), rect(0.0, -2.0, 10.0, 2.0)));
    // Butt caps add nothing: four corners, four edges, no more.
    assert_eq!(out.segments().len(), 4);
    assert_eq!(winding_about(&out, 5.0, 0.0).abs(), 1);
    assert_eq!(winding_about(&out, 5.0, 3.0), 0);
    assert_eq!(winding_about(&out, -1.0, 0.0), 0);
}

#[test]
fn zero_width_renders_nothing() {
    for w in [0.0, -1.0, f64::NAN] {
        let out = stroke(&line(p(0.0, 0.0), p(10.0, 0.0)), &style(w));
        assert_eq!(out.elements().len(), 0, "width {w}");
    }
}

#[test]
fn a_miter_join_reaches_its_reference_tip() {
    // A right-angle turn, width 2: the outer tip is on the bisector at
    // 1 / sin(45 deg) = sqrt(2) from the corner, here the point (1, -1).
    let turn = std::f64::consts::FRAC_PI_2;
    let out = stroke(&corner_path(turn), &style(2.0));
    let expected = V { x: 1.0, y: -1.0 };
    assert!(
        samples(&out).iter().any(|s| s.distance(expected) < 1e-12),
        "miter tip {expected:?} missing from {out:?}"
    );
    assert!((outer_reach(&out, turn) - 2.0f64.sqrt()).abs() < 1e-12);
    // And nothing on the outline is farther from the corner than the tip.
    assert!(max_distance_to(&out, ORIGIN) <= 10.0 + 1.0 + 1e-12);
}

#[test]
fn a_bevel_join_is_the_chord_and_a_round_join_is_the_arc() {
    let turn = std::f64::consts::FRAC_PI_2;
    let bevel = stroke(&corner_path(turn), &StrokeStyle { join: Join::Bevel, ..style(2.0) });
    let round = stroke(&corner_path(turn), &StrokeStyle { join: Join::Round, ..style(2.0) });
    // The bevel is the chord between the two offset points, which on the
    // bisector reaches only d*sin(45 deg); the round join is the arc, which
    // reaches exactly d.
    assert!((outer_reach(&bevel, turn) - 0.5f64.sqrt()).abs() < 1e-12);
    // The circle approximation is a cubic, good to 2.7e-4 of the radius.
    assert!((outer_reach(&round, turn) - 1.0).abs() < 3e-4);
    let outer: Vec<V> = samples(&round).into_iter().filter(|s| s.x > 0.0 && s.y < 0.0).collect();
    assert!(!outer.is_empty());
    for s in outer {
        assert!((s.length() - 1.0).abs() < 3e-4, "{s:?} is not on the join arc");
    }
}

#[test]
fn the_miter_limit_falls_back_to_bevel_at_the_threshold() {
    // The miter ratio is 1/sin(theta/2) for an included angle theta, so a limit
    // of exactly that ratio still miters and a hair less bevels.
    for included in [0.4, 1.0, std::f64::consts::FRAC_PI_2, 2.5] {
        let half = (included * 0.5f64).sin();
        let ratio = 1.0 / half;
        let turn = std::f64::consts::PI - included;
        let limited = |limit: f64| {
            let s = StrokeStyle { miter_limit: num(limit), ..style(2.0) };
            stroke(&corner_path(turn), &s)
        };
        let at = limited(ratio * (1.0 + 1e-9));
        let under = limited(ratio * (1.0 - 1e-9));
        assert!(
            (outer_reach(&at, turn) - ratio).abs() < 1e-9,
            "included {included}: miter should reach {ratio}"
        );
        assert!(
            (outer_reach(&under, turn) - half).abs() < 1e-9,
            "included {included}: past the limit it should bevel to {half}"
        );
    }
}

fn square(backwards: bool) -> Path {
    let corners = if backwards {
        [p(0.0, 0.0), p(0.0, 10.0), p(10.0, 10.0), p(10.0, 0.0)]
    } else {
        [p(0.0, 0.0), p(10.0, 0.0), p(10.0, 10.0), p(0.0, 10.0)]
    };
    Path::from(vec![
        PathEl::MoveTo(corners[0]),
        PathEl::LineTo(corners[1]),
        PathEl::LineTo(corners[2]),
        PathEl::LineTo(corners[3]),
        PathEl::ClosePath,
    ])
}

#[test]
fn a_closed_path_joins_at_the_seam_rather_than_capping() {
    let out = stroke(&square(false), &style(2.0));
    // Miter joins all round, including at (0, 0): the outer contour is the
    // 12x12 square, not a 10x12 one with a square end stuck on.
    assert!(same_box(bounds(&out), rect(-1.0, -1.0, 11.0, 11.0)));
    assert_eq!(out.subpaths().len(), 2);
    assert_eq!(winding_about(&out, 0.0, 5.0).abs(), 1);
    assert_eq!(winding_about(&out, 5.0, 5.0), 0);
    assert_eq!(winding_about(&out, -0.5, -0.5).abs(), 1);
}

#[test]
fn degenerate_segments_do_not_emit_spurious_joins() {
    // Two collinear segments, and the same two with a zero-length line and a
    // degenerate curve wedged between them.
    let clean = Path::from(vec![
        PathEl::MoveTo(p(0.0, 0.0)),
        PathEl::LineTo(p(5.0, 0.0)),
        PathEl::LineTo(p(10.0, 0.0)),
    ]);
    let padded = Path::from(vec![
        PathEl::MoveTo(p(0.0, 0.0)),
        PathEl::LineTo(p(5.0, 0.0)),
        PathEl::LineTo(p(5.0, 0.0)),
        PathEl::CurveTo(p(5.0, 0.0), p(5.0, 0.0), p(5.0, 0.0)),
        PathEl::LineTo(p(10.0, 0.0)),
    ]);
    for join in [Join::Miter, Join::Round, Join::Bevel] {
        let style = StrokeStyle { join, ..style(2.0) };
        assert_eq!(stroke(&clean, &style), stroke(&padded, &style), "{join:?}");
    }
    // And a real corner between the same degenerate pieces still joins.
    let corner = Path::from(vec![
        PathEl::MoveTo(p(0.0, 0.0)),
        PathEl::LineTo(p(5.0, 0.0)),
        PathEl::LineTo(p(5.0, 0.0)),
        PathEl::LineTo(p(5.0, 5.0)),
    ]);
    assert!(same_box(bounds(&stroke(&corner, &style(2.0))), rect(0.0, -1.0, 6.0, 5.0)));
}

#[test]
fn each_cap_matches_its_reference() {
    let l = line(p(0.0, 0.0), p(10.0, 0.0));
    let capped = |cap: Cap| stroke(&l, &StrokeStyle { cap, ..style(2.0) });
    let (butt, square, round) = (capped(Cap::Butt), capped(Cap::Square), capped(Cap::Round));
    assert!(same_box(bounds(&butt), rect(0.0, -1.0, 10.0, 1.0)));
    // Square adds half a width at each end; round adds the same box but only
    // touches it at one point.
    assert!(same_box(bounds(&square), rect(-1.0, -1.0, 11.0, 1.0)));
    let rb = bounds(&round);
    assert!(
        (val(rb.x0) + 1.0).abs() < 1e-9 && (val(rb.x1) - 11.0).abs() < 1e-9,
        "{rb:?}"
    );
    // The round cap is the half circle about the endpoint, to the 2.7e-4 a
    // cubic approximates a circle to.
    for s in samples(&round).into_iter().filter(|s| s.x < 0.0) {
        assert!((s.length() - 1.0).abs() < 3e-4, "{s:?} is not on the cap");
    }
    assert_eq!(winding_about(&square, -0.5, 0.9).abs(), 1);
    assert_eq!(winding_about(&round, -0.5, 0.9), 0);
    assert_eq!(winding_about(&round, -0.5, 0.0).abs(), 1);
}

#[test]
fn a_lone_moveto_is_a_dot_under_a_round_cap() {
    let path = Path::from(vec![PathEl::MoveTo(p(3.0, 4.0))]);
    let round = stroke(&path, &StrokeStyle { cap: Cap::Round, ..style(2.0) });
    assert!(same_box(bounds(&round), rect(2.0, 3.0, 4.0, 5.0)), "{:?}", bounds(&round));
    assert_eq!(winding_about(&round, 3.0, 4.0).abs(), 1);
    assert_eq!(winding_about(&round, 3.9, 4.9), 0);
    for s in samples(&round) {
        assert!((s.distance(V { x: 3.0, y: 4.0 }) - 1.0).abs() < 3e-4, "{s:?}");
    }

    let square = stroke(&path, &StrokeStyle { cap: Cap::Square, ..style(2.0) });
    assert!(same_box(bounds(&square), rect(2.0, 3.0, 4.0, 5.0)));
    assert_eq!(winding_about(&square, 3.9, 4.9).abs(), 1);

    // A butt cap has no extent, so a zero-length subpath draws nothing.
    assert_eq!(stroke(&path, &style(2.0)).elements().len(), 0);
    // And neither does a circle too small to have a segment.
    assert_eq!(corner::dot(Cap::Round, [p(0.0, 0.0); 4], &vec![]), vec![]);
}

#[test]
fn center_alignment_is_the_svg_default() {
    assert_eq!(StrokeStyle::default().align, Align::Center);
    let l = line(p(0.0, 0.0), p(10.0, 0.0));
    assert_eq!(
        stroke(&l, &style(4.0)),
        stroke(&l, &StrokeStyle { align: Align::Center, ..style(4.0) })
    );
}

#[test]
fn inside_and_outside_clip_against_the_fill() {
    // The same square wound either way: which side is out must come from the
    // geometry, not from the order of the points.
    for backwards in [true, false] {
        let src = square(backwards);
        let inside = stroke(&src, &StrokeStyle { align: Align::Inside, ..style(2.0) });
        let outside = stroke(&src, &StrokeStyle { align: Align::Outside, ..style(2.0) });
        // Inside stays within the fill and covers the band just in.
        assert!(same_box(bounds(&inside), rect(0.0, 0.0, 10.0, 10.0)));
        assert_eq!(winding_about(&inside, 1.0, 5.0).abs(), 1);
        assert_eq!(winding_about(&inside, 5.0, 5.0), 0);
        assert_eq!(winding_about(&inside, -0.5, 5.0), 0);
        // Outside stays out of it.
        assert!(same_box(bounds(&outside), rect(-2.0, -2.0, 12.0, 12.0)));
        assert_eq!(winding_about(&outside, -1.0, 5.0).abs(), 1);
        assert_eq!(winding_about(&outside, 5.0, 5.0), 0);
        assert_eq!(winding_about(&outside, 1.0, 5.0), 0);
    }
}

#[test]
fn every_stroke_is_finite_and_closed() {
    let mut r = Rng(5);
    for _ in 0..60 {
        let mut path = Path::new();
        for _ in 0..r.below(7) {
            path.push(match r.below(8) {
                0 | 1 => PathEl::MoveTo(r.point()),
                2 | 3 => PathEl::LineTo(r.point()),
                4 => PathEl::QuadTo(r.point(), r.point()),
                5 => PathEl::CurveTo(r.point(), r.point(), r.point()),
                _ => PathEl::ClosePath,
            });
        }
        let s = StrokeStyle {
            width: num(r.unit() * 1e3),
            join: [Join::Miter, Join::Round, Join::Bevel][r.below(3) as usize],
            cap: [Cap::Butt, Cap::Round, Cap::Square][r.below(3) as usize],
            miter_limit: num(r.unit() * 8.0),
            align: [Align::Center, Align::Inside, Align::Outside][r.below(3) as usize],
            dash: Vec::new(),
            dash_offset: num(0.0),
            tolerance: num(1e-1),
        };
        let out = stroke(&path, &s);
        for el in out.elements() {
            let finite = match *el {
                PathEl::MoveTo(q) | PathEl::LineTo(q) => q.is_finite(),
                PathEl::QuadTo(a, b) => a.is_finite() && b.is_finite(),
                PathEl::CurveTo(a, b, c) => a.is_finite() && b.is_finite() && c.is_finite(),
                PathEl::ClosePath => true,
            };
            assert!(finite, "{path:?} {s:?}");
        }
        for sub in out.subpaths() {
            assert!(sub.is_closed() || sub.elements().is_empty(), "{path:?} {s:?}");
        }
    }
}

#[test]
fn a_stroked_circle_is_an_annulus() {
    // Four cubic quarters: the offset of each must stay concentric, and the two
    // contours must come out at the two radii.
    let k = 4.0 / 3.0 * std::f64::consts::FRAC_PI_8.tan();
    let mut els = vec![PathEl::MoveTo(p(1.0, 0.0))];
    let mut a = V { x: 1.0, y: 0.0 };
    for i in 0..4 {
        let (s0, c0) = (f64::from(i) * std::f64::consts::FRAC_PI_2).sin_cos();
        let (s1, c1) = (f64::from(i + 1) * std::f64::consts::FRAC_PI_2).sin_cos();
        let b = V { x: c1, y: s1 };
        els.push(PathEl::CurveTo(
            a.plus(V { x: -s0, y: c0 }.times(k)).point(),
            b.minus(V { x: -s1, y: c1 }.times(k)).point(),
            b.point(),
        ));
        a = b;
    }
    els.push(PathEl::ClosePath);
    let out = stroke(&Path::from(els), &StrokeStyle { join: Join::Round, ..style(0.5) });
    for s in samples(&out) {
        let r = s.length();
        assert!(
            (r - 1.25).abs() < 1e-3 || (r - 0.75).abs() < 1e-3,
            "radius {r} is on neither side of the annulus"
        );
    }
    assert_eq!(winding_about(&out, 1.0, 0.0).abs(), 1);
    assert_eq!(winding_about(&out, 0.0, 0.0), 0);
    assert_eq!(winding_about(&out, 2.0, 0.0), 0);
}

// ------------------------------------------------------------------ dashes

/// The arc length of each dashed subpath, in order.
fn dash_lengths(path: &Path) -> Vec<f64> {
    path.subpaths()
        .iter()
        .map(|sub| sub.segments().into_iter().map(length).sum())
        .collect()
}

fn horizontal(len: f64) -> Path {
    line(p(0.0, 0.0), p(len, 0.0))
}

/// A cubic whose speed varies by a factor of about nine end to end, so
/// parameter-space dashing would be visibly wrong on it.
fn uneven() -> Path {
    Path::from(vec![
        PathEl::MoveTo(p(0.0, 0.0)),
        PathEl::CurveTo(p(1.0, 0.0), p(2.0, 0.0), p(12.0, 0.0)),
    ])
}

#[test]
fn dash_lengths_are_arc_length_not_parameter() {
    let path = uneven();
    let total: f64 = path.segments().into_iter().map(length).sum();
    let dashed = dash(&path, &[1.0, 1.0], 0.0);
    let lengths = dash_lengths(&dashed);
    assert_eq!(lengths.len(), (total / 2.0).ceil() as usize);
    // Every dash but the last is exactly one long, wherever it fell on the
    // curve. In parameter space these would run from 0.3 to 4.
    for (i, l) in lengths.iter().enumerate() {
        if i + 1 < lengths.len() {
            assert!((l - 1.0).abs() < 1e-6, "dash {i} is {l} long");
        }
    }
}

#[test]
fn the_offset_shifts_the_pattern() {
    // Pattern [2, 2] on a length of 10, starting 1 in: the first dash is cut
    // short to 1, then the rest fall on the shifted grid.
    let at = |offset: f64| dash(&horizontal(10.0), &[2.0, 2.0], offset);
    let dashed = at(1.0);
    assert_eq!(dashed.subpaths()[0].start(), p(0.0, 0.0));
    let lengths = dash_lengths(&dashed);
    assert!((lengths[0] - 1.0).abs() < 1e-12, "{lengths:?}");
    assert!((lengths[1] - 2.0).abs() < 1e-12, "{lengths:?}");
    // A negative offset is the same phase as its positive complement, and a
    // whole period of offset changes nothing.
    assert_eq!(at(-3.0), at(1.0));
    assert_eq!(at(4.0), at(0.0));
}

#[test]
fn a_pattern_wraps_continuously_across_segment_boundaries() {
    // Two unit lines meeting at (1, 0), dashed at 1.5: the first dash must
    // cross the join as one subpath, not end at it.
    let path = Path::from(vec![
        PathEl::MoveTo(p(0.0, 0.0)),
        PathEl::LineTo(p(1.0, 0.0)),
        PathEl::LineTo(p(2.0, 0.0)),
    ]);
    let dashed = dash(&path, &[1.5, 0.25], 0.0);
    let subs = dashed.subpaths();
    assert_eq!(subs[0].segments().len(), 2);
    assert!((dash_lengths(&dashed)[0] - 1.5).abs() < 1e-12);
    // And the state carries: the second dash starts 0.25 later.
    assert_eq!(subs[1].start(), p(1.75, 0.0));
}

#[test]
fn an_odd_pattern_repeats_doubled() {
    // [1, 2, 3] is [1 on, 2 off, 3 on, 1 off, 2 on, 3 off], period 12.
    let at = |offset: f64| dash(&horizontal(12.0), &[1.0, 2.0, 3.0], offset);
    let lengths = dash_lengths(&at(0.0));
    assert_eq!(lengths.len(), 3);
    for (got, want) in lengths.iter().zip([1.0, 3.0, 2.0]) {
        assert!((got - want).abs() < 1e-12, "{lengths:?}");
    }
    // Which makes the period twelve, not six.
    assert_eq!(at(12.0), at(0.0));
    assert_ne!(at(6.0), at(0.0));
}

#[test]
fn a_zero_length_dash_with_round_caps_renders_a_dot() {
    // The dotted-line pattern: no on-length at all, one dot every 4.
    let dashed = dash(&horizontal(10.0), &[0.0, 4.0], 0.0);
    let subs = dashed.subpaths();
    assert_eq!(subs.len(), 3);
    for (sub, x) in subs.iter().zip([0.0, 4.0, 8.0]) {
        // A lone `MoveTo`: nothing is drawn, but the position survives.
        assert_eq!(sub.segments().len(), 0);
        assert_eq!(sub.start(), p(x, 0.0));
    }
    let dots = stroke(&dashed, &StrokeStyle { cap: Cap::Round, ..style(2.0) });
    assert_eq!(dots.subpaths().len(), 3);
    assert!(same_box(bounds(&dots), rect(-1.0, -1.0, 9.0, 1.0)), "{:?}", bounds(&dots));
    // The same through a style that asks for the dashes itself.
    let direct = StrokeStyle {
        cap: Cap::Round,
        dash: vec![num(0.0), num(4.0)],
        ..style(2.0)
    };
    assert_eq!(stroke(&horizontal(10.0), &direct), dots);
    // And nothing at all with butt caps, which have no extent.
    assert_eq!(stroke(&dashed, &style(2.0)).elements().len(), 0);
}

#[test]
fn an_invalid_pattern_leaves_the_path_alone() {
    let path = uneven();
    for pattern in [&[][..], &[0.0, 0.0][..], &[-1.0, 2.0][..], &[f64::NAN][..]] {
        assert_eq!(dash(&path, pattern, 0.0), path, "{pattern:?}");
    }
    assert_eq!(dash(&path, &[1.0], f64::NAN), path);
}

#[test]
fn dashing_a_closed_subpath_restarts_the_pattern() {
    let square = Path::from(vec![
        PathEl::MoveTo(p(0.0, 0.0)),
        PathEl::LineTo(p(4.0, 0.0)),
        PathEl::LineTo(p(4.0, 4.0)),
        PathEl::LineTo(p(0.0, 4.0)),
        PathEl::ClosePath,
    ]);
    let dashed = dash(&square, &[2.0, 2.0], 0.0);
    // Sixteen units at 2 on, 2 off: four dashes, the first from the seam.
    assert_eq!(dashed.subpaths().len(), 4);
    assert_eq!(dashed.subpaths()[0].start(), p(0.0, 0.0));
    assert!(dash_lengths(&dashed).iter().all(|l| (l - 2.0).abs() < 1e-12));
}

#[test]
fn dashes_are_cut_from_curves_too() {
    let c = bez(p(0.0, 0.0), p(0.0, 4.0), p(6.0, 4.0), p(6.0, 0.0));
    let path = Path::from(vec![PathEl::MoveTo(c.p0), PathEl::CurveTo(c.p1, c.p2, c.p3)]);
    let dashed = dash(&path, &[1.0, 0.5], 0.0);
    // Every dash is on the source curve, and one unit long.
    for sub in dashed.subpaths() {
        for seg in sub.segments() {
            for i in 0..=8 {
                let q = point_at(seg, f64::from(i) / 8.0);
                assert!(nearest(c, q) < 1e-7, "{q:?} is off the curve");
            }
        }
    }
    let lengths = dash_lengths(&dashed);
    for l in &lengths[..lengths.len() - 1] {
        assert!((l - 1.0).abs() < 1e-6, "{lengths:?}");
    }
}

#[test]
fn a_walk_that_would_not_end_is_given_up() {
    let mut line = Path::new();
    line.push(PathEl::MoveTo(p(0.0, 0.0)));
    line.push(PathEl::LineTo(p(1e20, 0.0)));
    let tape = Tape {
        length: |s: Segment| num(length(s)),
        part: |s: Segment, _: Real, _: Real| s,
        spot: |s: Segment, _: Real| s.start(),
        minus: |a: Real, b: Real| num(val(a) - val(b)),
        plus: |a: Real, b: Real| num(val(a) + val(b)),
    };
    let wrap = |offset: Real, period: Real| num(val(offset).rem_euclid(val(period)));
    // A stretch of one is lost in the rounding of the length behind it.
    assert!(line.dash(&vec![num(1.0)], num(0.0), &tape, &wrap, 1000).is_none());
    // What cannot be dashed comes back as it is, within any limit.
    let same = line.dash(&vec![num(-1.0)], num(0.0), &tape, &wrap, 0).unwrap();
    assert_eq!(same.elements(), line.elements());
    let two = line.dash(&vec![num(5e19)], num(0.0), &tape, &wrap, 2).unwrap();
    assert_eq!(two.subpaths().len(), 1);
}
