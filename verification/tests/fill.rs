use hane::geom::Point;
use hane::geom::Real;
use hane::path::boolean::FillRule;
use hane::path::outline::PathEl;
use hane::raster::clip::Clip;
use hane::raster::clip::Rows;
use hane::raster::coverage::add_span;
use hane::raster::coverage::coverage_row;
use hane::raster::coverage::SUB_ROWS;
use hane::raster::fill::build_edges;
use hane::raster::fill::crossed;
use hane::raster::fill::extent;
use hane::raster::fill::Color;
use hane::raster::fill::Edge;
use hane::raster::fill::FlatEl;
use hane::raster::fill::Pixmap;
use hane::raster::paint::Paint;
use hane::raster::shade::Sampler;
use hane::raster::scene::BlendMode;
use hane::raster::scene::Draw;
use hane::raster::scene::Node;
use hane::raster::scene::Scene;

const SUB_WEIGHT: f64 = 1.0 / SUB_ROWS as f64;

const WHITE: Color = Color {
    r: 255,
    g: 255,
    b: 255,
    a: 255,
};

fn num(v: f64) -> Real {
    Real::from_bits(v.to_bits())
}

fn val(r: Real) -> f64 {
    f64::from_bits(r.bits)
}

fn p(x: f64, y: f64) -> Point {
    Point::new(num(x), num(y))
}

/// A curve as the polyline through evenly spaced parameters.
fn polyline(at: impl Fn(f64) -> (f64, f64), from: Point, to: Point) -> Vec<Point> {
    let mut poly = vec![from];
    for i in 1..64 {
        let (x, y) = at(f64::from(i) / 64.0);
        poly.push(p(x, y));
    }
    poly.push(to);
    poly
}

fn flat(path: &[PathEl]) -> Vec<FlatEl> {
    let mut cur = p(0.0, 0.0);
    let mut start = cur;
    let mut out = Vec::new();
    for &el in path {
        match el {
            PathEl::MoveTo(q) => {
                out.push(FlatEl::MoveTo(q));
                start = q;
                cur = q;
            }
            PathEl::LineTo(q) => {
                out.push(FlatEl::LineTo(q));
                cur = q;
            }
            PathEl::QuadTo(c, q) => {
                let bez = |t: f64, a: Real, b: Real, d: Real| {
                    let u = 1.0 - t;
                    u * u * val(a) + 2.0 * u * t * val(b) + t * t * val(d)
                };
                let at = |t: f64| (bez(t, cur.x, c.x, q.x), bez(t, cur.y, c.y, q.y));
                out.push(FlatEl::CurveTo(polyline(at, cur, q), q));
                cur = q;
            }
            PathEl::CurveTo(c, d, q) => {
                let bez = |t: f64, a: Real, b: Real, e: Real, f: Real| {
                    let u = 1.0 - t;
                    u * u * u * val(a)
                        + 3.0 * u * u * t * val(b)
                        + 3.0 * u * t * t * val(e)
                        + t * t * t * val(f)
                };
                let at = |t: f64| {
                    (bez(t, cur.x, c.x, d.x, q.x), bez(t, cur.y, c.y, d.y, q.y))
                };
                out.push(FlatEl::CurveTo(polyline(at, cur, q), q));
                cur = q;
            }
            PathEl::ClosePath => {
                out.push(FlatEl::ClosePath);
                cur = start;
            }
        }
    }
    out
}

/// Source-over of a colour at a coverage.
fn blended(dst: [u8; 4], color: Color, coverage: Real) -> [u8; 4] {
    let a = f64::from(color.a) / 255.0 * val(coverage).clamp(0.0, 1.0);
    let src = [color.r, color.g, color.b, 255];
    let mut out = dst;
    for (d, s) in out.iter_mut().zip(src) {
        *d = (f64::from(s) * a + f64::from(*d) * (1.0 - a)).round() as u8;
    }
    out
}

fn ruler(width: u32) -> Vec<Real> {
    (0..=width).map(|i| num(f64::from(i))).collect()
}

/// How coverage is sampled.
fn sampler() -> Sampler<
    impl Fn(Real, Real, u32) -> Rows,
    impl Fn(u32, u32) -> Real,
    impl Fn(Edge, Real) -> Real,
    impl Fn(Real, Real, Real) -> Real,
    impl Fn(Real, Real) -> Real,
> {
    Sampler {
        reach: |lo: Real, hi: Real, height: u32| {
            let height = f64::from(height);
            Rows {
                y0: val(lo).floor().clamp(0.0, height) as u32,
                y1: val(hi).ceil().clamp(0.0, height) as u32,
            }
        },
        line: |y: u32, sub: u32| num(f64::from(y) + (f64::from(sub) + 0.5) * SUB_WEIGHT),
        across: |e: Edge, y: Real| {
            let t = (val(y) - val(e.top.y)) / (val(e.bot.y) - val(e.top.y));
            num((1.0 - t) * val(e.top.x) + t * val(e.bot.x))
        },
        grow: |c: Real, a: Real, b: Real| num(val(c) + SUB_WEIGHT * (val(b) - val(a))),
        times,
    }
}

/// The coverage of one row of pixels.
fn coverage(edges: &Vec<Edge>, y: u32, width: u32, rule: FillRule) -> Vec<Real> {
    let s = sampler();
    coverage_row(edges, y, &ruler(width), rule, &s.line, &s.across, &s.grow)
}

/// Fills a path within a clip.
fn fill_within(pm: &mut Pixmap, path: &[PathEl], rule: FillRule, clip: Option<&Clip>, color: Color) {
    let blend = |_: u32, _: u32, was: [u8; 4], c: Real| blended(was, color, c);
    pm.fill_path(&flat(path), rule, clip, &ruler(pm.width()), &sampler(), &blend);
}

fn paint(pm: &mut Pixmap, path: &[PathEl], color: Color) {
    fill_within(pm, path, FillRule::NonZero, None, color);
}

/// The alpha byte at `(x, y)`, which for an opaque fill onto a transparent
/// pixmap *is* the coverage byte.
fn cov(pm: &Pixmap, x: u32, y: u32) -> u8 {
    pm.pixel(x, y)[3]
}

/// Total coverage over the whole pixmap, in pixels.
fn total(pm: &Pixmap) -> f64 {
    pm.data()
        .iter()
        .skip(3)
        .step_by(4)
        .map(|&a| f64::from(a) / 255.0)
        .sum()
}

fn poly(points: &[(f64, f64)]) -> Vec<PathEl> {
    let mut els = vec![PathEl::MoveTo(p(points[0].0, points[0].1))];
    els.extend(points[1..].iter().map(|&(x, y)| PathEl::LineTo(p(x, y))));
    els.push(PathEl::ClosePath);
    els
}

fn filled(w: u32, h: u32, path: &[PathEl]) -> Pixmap {
    let mut pm = Pixmap::new(w, h);
    paint(&mut pm, path, WHITE);
    pm
}

/// The exact area of a simple polygon, by the shoelace formula. Only valid
/// where the polygon does not cross itself -- which is exactly where it is
/// used below.
fn shoelace(points: &[(f64, f64)]) -> f64 {
    let mut sum = 0.0;
    for i in 0..points.len() {
        let (x0, y0) = points[i];
        let (x1, y1) = points[(i + 1) % points.len()];
        sum += x0 * y1 - x1 * y0;
    }
    (sum / 2.0).abs()
}

/// A regular `n`-gon, counter-clockwise unless `reverse`.
fn ngon(cx: f64, cy: f64, r: f64, n: u32, reverse: bool) -> Vec<(f64, f64)> {
    let mut out: Vec<(f64, f64)> = (0..n)
        .map(|i| {
            let a = std::f64::consts::TAU * f64::from(i) / f64::from(n);
            (cx + r * a.cos(), cy + r * a.sin())
        })
        .collect();
    if reverse {
        out.reverse();
    }
    out
}

struct Rng(u64);

impl Rng {
    fn next(&mut self) -> u64 {
        self.0 = self.0.wrapping_mul(6364136223846793005).wrapping_add(1442695040888963407);
        self.0 >> 33
    }

    fn below(&mut self, n: u64) -> u64 {
        self.next() % n
    }

    fn unit(&mut self) -> f64 {
        self.next() as f64 / (1u64 << 31) as f64
    }
}

fn check<T: std::fmt::Debug>(
    name: &str,
    n: u32,
    make: impl Fn(&mut Rng) -> T,
    holds: impl Fn(&T) -> bool,
) {
    let mut rng = Rng(1);
    for _ in 0..n {
        let input = make(&mut rng);
        assert!(holds(&input), "{name}: {input:?}");
    }
}

// ---------------------------------------------------------- axis-aligned

#[test]
fn a_pixel_aligned_rect_fills_exactly_with_no_antialiasing() {
    let pm = filled(
        8,
        8,
        &poly(&[(2.0, 1.0), (6.0, 1.0), (6.0, 5.0), (2.0, 5.0)]),
    );
    for y in 0..8 {
        for x in 0..8 {
            let inside = (2..6).contains(&x) && (1..5).contains(&y);
            assert_eq!(
                cov(&pm, x, y),
                if inside { 255 } else { 0 },
                "at ({x}, {y})"
            );
        }
    }
    // And the colour itself survives full coverage untouched.
    assert_eq!(&pm.data()[(3 * 8 + 2) * 4..(3 * 8 + 2) * 4 + 4], &[255; 4]);
}

#[test]
fn a_unit_square_is_one_pixel() {
    let pm = filled(
        4,
        4,
        &poly(&[(1.0, 1.0), (2.0, 1.0), (2.0, 2.0), (1.0, 2.0)]),
    );
    assert_eq!(cov(&pm, 1, 1), 255);
    assert!((total(&pm) - 1.0).abs() < 1e-12, "{}", total(&pm));
}

#[test]
fn an_axis_aligned_edge_off_the_pixel_grid_is_a_clean_fraction() {
    // x from 1.25 to 2.75: pixel 1 gets 3/4, pixel 2 gets 3/4.
    let pm = filled(
        4,
        4,
        &poly(&[(1.25, 0.0), (2.75, 0.0), (2.75, 4.0), (1.25, 4.0)]),
    );
    for y in 0..4 {
        assert_eq!(cov(&pm, 0, y), 0);
        assert_eq!(cov(&pm, 1, y), 191); // round(0.75 * 255) = 191
        assert_eq!(cov(&pm, 2, y), 191);
        assert_eq!(cov(&pm, 3, y), 0);
    }
    // y from 0.25 to 3.75 likewise, on a column this time.
    let pm = filled(
        4,
        4,
        &poly(&[(0.0, 0.25), (4.0, 0.25), (4.0, 3.75), (0.0, 3.75)]),
    );
    assert_eq!(cov(&pm, 0, 0), 191);
    assert_eq!(cov(&pm, 0, 1), 255);
    assert_eq!(cov(&pm, 0, 3), 191);
}

// ------------------------------------------------------------- the ramp

#[test]
fn a_45_degree_edge_produces_the_analytic_ramp() {
    // The triangle below y = x inside an 8x8 box. The pixel on the diagonal
    // is cut exactly in half, and every pixel below it is full.
    let pm = filled(8, 8, &poly(&[(0.0, 0.0), (8.0, 8.0), (0.0, 8.0)]));
    for k in 0..8u32 {
        // Exactly half: 16 midpoint samples of a linear ramp average to
        // 1/2 with no rounding at all, so this is 128, not 127 or 129.
        assert_eq!(cov(&pm, k, k), 128, "diagonal pixel {k}");
        for x in 0..k {
            assert_eq!(cov(&pm, x, k), 255, "interior ({x}, {k})");
        }
        for x in (k + 1)..8 {
            assert_eq!(cov(&pm, x, k), 0, "exterior ({x}, {k})");
        }
    }
    // The analytic area is 32: 28 whole pixels below the diagonal plus 8
    // half ones on it. The only departure is the byte itself -- a half
    // rounds to 128, not 127.5 -- so the total is 28 + 8 * 128/255, exactly.
    let want = 28.0 + 8.0 * 128.0 / 255.0;
    assert!((total(&pm) - want).abs() < 1e-9, "{} vs {want}", total(&pm));
}

#[test]
fn a_shallow_edge_ramps_monotonically() {
    // A 4:1 slope, where each successive pixel along the edge takes a
    // predictable step. Nothing here should be flat or reverse.
    let pm = filled(16, 8, &poly(&[(0.0, 0.0), (16.0, 4.0), (0.0, 4.0)]));
    let row: Vec<u8> = (0..16).map(|x| cov(&pm, x, 1)).collect();
    for w in row.windows(2) {
        assert!(w[1] <= w[0], "coverage must fall to the right: {row:?}");
    }
    assert_eq!(row[0], 255);
    assert_eq!(row[15], 0);
}

// ---------------------------------------------------------- nonzero rule

#[test]
fn nonzero_fills_a_doubly_wound_overlap_solid() {
    // Two squares wound the same way. Their overlap has winding 2, which
    // the nonzero rule fills; even-odd would punch a hole in it.
    let mut path = poly(&[(1.0, 1.0), (7.0, 1.0), (7.0, 7.0), (1.0, 7.0)]);
    path.extend(poly(&[(4.0, 4.0), (10.0, 4.0), (10.0, 10.0), (4.0, 10.0)]));
    let pm = filled(12, 12, &path);
    assert_eq!(cov(&pm, 5, 5), 255, "the overlap must be solid");
    assert_eq!(cov(&pm, 2, 2), 255);
    assert_eq!(cov(&pm, 8, 8), 255);
    assert_eq!(cov(&pm, 9, 2), 0);
}

#[test]
fn a_self_intersecting_pentagram_fills_solid() {
    // The literal figure-eight case: one closed subpath that crosses
    // itself, whose centre has winding 2. Under nonzero the star is solid;
    // under even-odd the middle pentagon would be empty.
    let r = 20.0;
    let pts: Vec<(f64, f64)> = (0..5)
        .map(|i| {
            // Every second vertex, which is what turns a pentagon into a
            // pentagram traced in one stroke.
            let a =
                std::f64::consts::TAU * f64::from(i) * 2.0 / 5.0 - std::f64::consts::FRAC_PI_2;
            (25.0 + r * a.cos(), 25.0 + r * a.sin())
        })
        .collect();
    let pm = filled(50, 50, &poly(&pts));
    assert_eq!(cov(&pm, 25, 25), 255, "the centre must be solid");
    // A point inside a star arm but outside the middle pentagon.
    assert_eq!(cov(&pm, 25, 8), 255);
    // A notch between two arms.
    assert_eq!(cov(&pm, 5, 5), 0);
}

#[test]
fn concentric_circles_wound_oppositely_leave_a_hole() {
    let mut path = poly(&ngon(25.0, 25.0, 20.0, 64, false));
    path.extend(poly(&ngon(25.0, 25.0, 10.0, 64, true)));
    let pm = filled(50, 50, &path);
    assert_eq!(cov(&pm, 25, 25), 0, "opposite winding must leave a hole");
    assert_eq!(cov(&pm, 25, 10), 255, "the ring itself must be solid");

    // Total coverage is the annulus, not the disc.
    let want = shoelace(&ngon(25.0, 25.0, 20.0, 64, false))
        - shoelace(&ngon(25.0, 25.0, 10.0, 64, false));
    let got = total(&pm);
    assert!((got - want).abs() / want < 0.01, "{got} vs {want}");
}

#[test]
fn concentric_circles_wound_alike_do_not() {
    let mut path = poly(&ngon(25.0, 25.0, 20.0, 64, false));
    path.extend(poly(&ngon(25.0, 25.0, 10.0, 64, false)));
    let pm = filled(50, 50, &path);
    assert_eq!(cov(&pm, 25, 25), 255, "same winding must stay solid");
    let want = shoelace(&ngon(25.0, 25.0, 20.0, 64, false));
    let got = total(&pm);
    assert!((got - want).abs() / want < 0.01, "{got} vs {want}");
}

#[test]
fn winding_direction_does_not_change_the_result() {
    let pts = ngon(16.0, 16.0, 12.0, 7, false);
    let a = filled(32, 32, &poly(&pts));
    let mut rev = pts.clone();
    rev.reverse();
    let b = filled(32, 32, &poly(&rev));
    assert_eq!(a.data(), b.data());
}

// ------------------------------------------------------- exact endpoints

#[test]
fn coverage_is_exact_at_zero_and_full() {
    // A shape with every kind of edge: axis-aligned, diagonal, and curved.
    let path = vec![
        PathEl::MoveTo(p(4.0, 4.0)),
        PathEl::LineTo(p(28.0, 4.0)),
        PathEl::CurveTo(
            p(34.0, 12.0),
            p(34.0, 20.0),
            p(28.0, 28.0),
        ),
        PathEl::LineTo(p(10.0, 22.0)),
        PathEl::ClosePath,
    ];
    let pm = filled(40, 40, &path);
    // Deep interior: exactly full, never 254.
    assert_eq!(cov(&pm, 16, 12), 255);
    // Far outside: exactly empty, never 1.
    assert_eq!(cov(&pm, 38, 38), 0);
    assert_eq!(cov(&pm, 1, 1), 0);
    // No pixel outside the path's own bounding box is touched at all.
    for y in 0..40 {
        for x in 0..40 {
            if !(3..=35).contains(&x) || !(3..=29).contains(&y) {
                assert_eq!(cov(&pm, x, y), 0, "bled to ({x}, {y})");
            }
        }
    }
    // Both extremes actually occur, so the assertions above are not vacuous.
    assert!(pm.data().iter().skip(3).step_by(4).any(|&a| a == 255));
    assert!(pm.data().iter().skip(3).step_by(4).any(|&a| a == 0));
}

#[test]
fn a_pixmap_sized_rect_saturates_every_pixel() {
    // The whole canvas, edges exactly on the boundary. Nothing may clip to
    // 254, and nothing may fall off the far edge.
    let pm = filled(
        16,
        16,
        &poly(&[(0.0, 0.0), (16.0, 0.0), (16.0, 16.0), (0.0, 16.0)]),
    );
    assert!(
        pm.data().iter().all(|&b| b == 255),
        "a full-canvas fill must be uniformly opaque"
    );
}

// ------------------------------------------------------ sub-pixel shapes

#[test]
fn sub_pixel_shapes_render_at_proportional_coverage() {
    for &side in &[0.5, 0.25, 0.125] {
        let pm = filled(
            4,
            4,
            &poly(&[
                (1.0, 1.0),
                (1.0 + side, 1.0),
                (1.0 + side, 1.0 + side),
                (1.0, 1.0 + side),
            ]),
        );
        let got = f64::from(cov(&pm, 1, 1)) / 255.0;
        assert!(got > 0.0, "a {side}-pixel square vanished");
        // Within the 1/16 vertical quantum plus a byte of rounding.
        assert!(
            (got - side * side).abs() < side * SUB_WEIGHT + 1.0 / 255.0,
            "{side}: got {got}, want {}",
            side * side
        );
    }
}

#[test]
fn a_sub_pixel_shape_spanning_a_pixel_boundary_splits_between_them() {
    // Half a pixel wide, straddling x = 2. Each side gets a quarter.
    let pm = filled(
        4,
        4,
        &poly(&[(1.75, 0.0), (2.25, 0.0), (2.25, 4.0), (1.75, 4.0)]),
    );
    assert_eq!(cov(&pm, 1, 2), 64); // round(0.25 * 255)
    assert_eq!(cov(&pm, 2, 2), 64);
    assert_eq!(cov(&pm, 3, 2), 0);
}

// ----------------------------------------------------------- total area

#[test]
fn total_coverage_matches_analytic_area() {
    // Regular polygons over two decades of size, at offsets that put the
    // vertices nowhere near the pixel grid. The comparison is against the
    // shoelace area of the polygon actually submitted, so this measures the
    // rasterizer and nothing else.
    let mut worst: f64 = 0.0;
    for &(r, n) in &[
        (1.5, 32u32),
        (2.5, 32),
        (5.0, 48),
        (12.0, 64),
        (40.0, 128),
        (2.0, 3),
        (7.0, 5),
    ] {
        for &(dx, dy) in &[(0.0, 0.0), (0.37, 0.11), (0.5, 0.5), (0.93, 0.64)] {
            let c = 64.0 + dx;
            let pts = ngon(c, 64.0 + dy, r, n, false);
            let pm = filled(128, 128, &poly(&pts));
            let want = shoelace(&pts);
            let err = (total(&pm) - want).abs() / want;
            worst = worst.max(err);
            assert!(
                err < 0.01,
                "r={r} n={n} offset=({dx}, {dy}): {} vs {want} ({:.3}%)",
                total(&pm),
                err * 100.0
            );
        }
    }
    // Not merely under 1% -- comfortably so. The measured worst case is
    // 0.28%, on the smallest disc here; at four sub-rows it would be 1.17%
    // and the criterion above would fail outright. This tighter bound is
    // the tripwire that says so before that happens.
    assert!(
        worst < 0.005,
        "worst relative area error {:.4}%",
        worst * 100.0
    );
}

#[test]
fn a_rotated_square_keeps_its_area() {
    // 30 degrees, so no edge is axis-aligned or diagonal.
    let (c, s) = (30f64.to_radians().cos(), 30f64.to_radians().sin());
    let pts: Vec<(f64, f64)> = [(-10.0, -10.0), (10.0, -10.0), (10.0, 10.0), (-10.0, 10.0)]
        .iter()
        .map(|&(x, y): &(f64, f64)| (32.0 + x * c - y * s, 32.0 + x * s + y * c))
        .collect();
    let pm = filled(64, 64, &poly(&pts));
    let err = (total(&pm) - 400.0).abs() / 400.0;
    assert!(err < 0.01, "{} vs 400 ({:.3}%)", total(&pm), err * 100.0);
}

#[test]
fn a_cubic_circle_keeps_its_area() {
    // Curves, not lines: four cubics with the standard kappa. That
    // approximation is itself about 0.02% small in radius, so this is a
    // looser bound than the polygon tests by construction.
    let (cx, cy, r) = (32.0, 32.0, 25.0);
    let k = 0.552_284_749_830_793_6 * r;
    let path = vec![
        PathEl::MoveTo(p(cx + r, cy)),
        PathEl::CurveTo(
            p(cx + r, cy + k),
            p(cx + k, cy + r),
            p(cx, cy + r),
        ),
        PathEl::CurveTo(
            p(cx - k, cy + r),
            p(cx - r, cy + k),
            p(cx - r, cy),
        ),
        PathEl::CurveTo(
            p(cx - r, cy - k),
            p(cx - k, cy - r),
            p(cx, cy - r),
        ),
        PathEl::CurveTo(
            p(cx + k, cy - r),
            p(cx + r, cy - k),
            p(cx + r, cy),
        ),
        PathEl::ClosePath,
    ];
    let pm = filled(64, 64, &path);
    let want = std::f64::consts::PI * r * r;
    let err = (total(&pm) - want).abs() / want;
    assert!(err < 0.01, "{} vs {want} ({:.3}%)", total(&pm), err * 100.0);
    assert_eq!(cov(&pm, 32, 32), 255);
    assert_eq!(cov(&pm, 2, 2), 0);
}


// ------------------------------------------------------------- blending

#[test]
fn a_translated_shape_keeps_its_area() {
    // Translation by a non-integer amount redistributes coverage between
    // pixels but must not create or destroy any.
    let base = ngon(32.0, 32.0, 11.0, 24, false);
    let want = shoelace(&base);
    for &d in &[0.0, 0.1, 0.3, 0.5, 0.7, 0.9] {
        let pts: Vec<(f64, f64)> = base.iter().map(|&(x, y)| (x + d, y + d)).collect();
        let got = total(&filled(64, 64, &poly(&pts)));
        assert!((got - want).abs() / want < 0.01, "d={d}: {got} vs {want}");
    }
}

#[test]
fn a_translucent_fill_composites_source_over() {
    let half = Color {
        r: 255,
        g: 0,
        b: 0,
        a: 128,
    };
    let square = poly(&[(0.0, 0.0), (4.0, 0.0), (4.0, 4.0), (0.0, 4.0)]);
    let mut pm = Pixmap::new(4, 4);
    paint(&mut pm, &square, half);
    // Premultiplied: red and alpha both 128 * 1.0.
    assert_eq!(&pm.data()[0..4], &[128, 0, 0, 128]);
    // Over itself: 128 + 128 * (1 - 128/255) = 191.5 -> 192.
    paint(&mut pm, &square, half);
    assert_eq!(&pm.data()[0..4], &[192, 0, 0, 192]);
    // An opaque fill on top replaces it exactly.
    paint(&mut pm, &square, WHITE);
    assert_eq!(&pm.data()[0..4], &[255; 4]);
}

#[test]
fn a_fully_transparent_colour_changes_nothing() {
    let mut pm = Pixmap::new(4, 4);
    paint(
        &mut pm,
        &poly(&[(0.0, 0.0), (4.0, 0.0), (4.0, 4.0), (0.0, 4.0)]),
        Color {
            r: 255,
            g: 255,
            b: 255,
            a: 0,
        },
    );
    assert!(pm.data().iter().all(|&b| b == 0));
}

// ------------------------------------------------------------ degenerate

#[test]
fn degenerate_input_is_harmless() {
    let cases: Vec<Vec<PathEl>> = vec![
        vec![],
        vec![PathEl::ClosePath],
        vec![PathEl::MoveTo(p(1.0, 1.0))],
        // A single point, and a zero-area horizontal sliver.
        poly(&[(1.0, 1.0), (1.0, 1.0), (1.0, 1.0)]),
        poly(&[(0.0, 2.0), (4.0, 2.0), (2.0, 2.0)]),
        // Entirely off the canvas, in every direction.
        poly(&[(-50.0, -50.0), (-40.0, -50.0), (-40.0, -40.0)]),
        poly(&[(100.0, 100.0), (110.0, 100.0), (110.0, 110.0)]),
        // Non-finite coordinates: the bad edges drop, nothing panics.
        poly(&[(f64::NAN, 1.0), (3.0, 1.0), (3.0, 3.0)]),
        poly(&[(f64::INFINITY, 1.0), (3.0, 1.0), (3.0, 3.0)]),
    ];
    for path in &cases {
        let pm = filled(8, 8, path);
        assert!(total(&pm) < 8.0, "{path:?} filled unexpectedly much");
    }
    // A zero-sized pixmap must not index anything.
    let mut pm = Pixmap::new(0, 0);
    paint(&mut pm, &poly(&[(0.0, 0.0), (4.0, 0.0), (4.0, 4.0)]), WHITE);
    assert!(pm.data().is_empty());
}

#[test]
fn a_path_hanging_off_the_edge_is_clipped_not_wrapped() {
    // Half on, half off, on all four sides at once.
    let pm = filled(
        8,
        8,
        &poly(&[(-4.0, -4.0), (4.0, -4.0), (4.0, 4.0), (-4.0, 4.0)]),
    );
    for y in 0..8 {
        for x in 0..8 {
            let inside = x < 4 && y < 4;
            assert_eq!(cov(&pm, x, y), if inside { 255 } else { 0 }, "({x}, {y})");
        }
    }
    assert!((total(&pm) - 16.0).abs() < 1e-9);
}

#[test]
fn an_unclosed_subpath_is_closed_implicitly() {
    let open = vec![
        PathEl::MoveTo(p(1.0, 1.0)),
        PathEl::LineTo(p(5.0, 1.0)),
        PathEl::LineTo(p(5.0, 5.0)),
        PathEl::LineTo(p(1.0, 5.0)),
    ];
    let mut closed = open.clone();
    closed.push(PathEl::ClosePath);
    assert_eq!(filled(8, 8, &open).data(), filled(8, 8, &closed).data());
    // And a following MoveTo closes it just as ClosePath would.
    let mut moved = open.clone();
    moved.push(PathEl::MoveTo(p(7.0, 7.0)));
    assert_eq!(filled(8, 8, &moved).data(), filled(8, 8, &closed).data());
}

// ------------------------------------------------------------- properties

#[test]
fn random_triangles_match_their_shoelace_area() {
    check(
        "triangle area",
        2_000,
        |r| {
            let mut p = || (r.unit() * 48.0 + 4.0, r.unit() * 48.0 + 4.0);
            [p(), p(), p()]
        },
        |&pts| {
            let want = shoelace(&pts);
            // Slivers are excluded on purpose: below a few pixels of area
            // the 1/16 vertical quantum and the 1/255 byte are a large
            // fraction of the answer, and the criterion is about shapes,
            // not about measuring the quantisation.
            if want < 20.0 {
                return true;
            }
            let got = total(&filled(56, 56, &poly(&pts)));
            (got - want).abs() / want < 0.01
        },
    );
}

#[test]
fn random_polygons_never_exceed_full_coverage() {
    // Total coverage can never beat the bounding box, and no byte can wrap.
    // This is the invariant that a double-counted span would break.
    check(
        "coverage bound",
        1_000,
        |r| {
            let n = 3 + r.below(6) as usize;
            (0..n)
                .map(|_| (r.unit() * 40.0 - 4.0, r.unit() * 40.0 - 4.0))
                .collect::<Vec<_>>()
        },
        |pts| {
            let pm = filled(32, 32, &poly(pts));
            let bbox = {
                let xs = pts.iter().map(|p| p.0);
                let ys = pts.iter().map(|p| p.1);
                let (x0, x1) = (
                    xs.clone().fold(f64::INFINITY, f64::min).max(0.0),
                    xs.fold(f64::NEG_INFINITY, f64::max).min(32.0),
                );
                let (y0, y1) = (
                    ys.clone().fold(f64::INFINITY, f64::min).max(0.0),
                    ys.fold(f64::NEG_INFINITY, f64::max).min(32.0),
                );
                ((x1 - x0).max(0.0) + 2.0) * ((y1 - y0).max(0.0) + 2.0)
            };
            total(&pm) <= bbox
        },
    );
}

#[test]
fn an_integer_translation_shifts_the_image_exactly() {
    // The strongest statement of "no off-by-one": moving a shape by whole
    // pixels must move its raster by whole pixels, bit for bit.
    let base = ngon(20.0, 20.0, 9.0, 13, false);
    let a = filled(48, 48, &poly(&base));
    let shifted: Vec<(f64, f64)> = base.iter().map(|&(x, y)| (x + 5.0, y + 3.0)).collect();
    let b = filled(48, 48, &poly(&shifted));
    for y in 0..45u32 {
        for x in 0..43u32 {
            assert_eq!(cov(&a, x, y), cov(&b, x + 5, y + 3), "({x}, {y})");
        }
    }
}

#[test]
fn subdividing_an_edge_changes_nothing() {
    // Extra collinear vertices must not perturb a single byte -- if the
    // half-open rule were wrong, each one would drop or double a crossing.
    let plain = poly(&[(3.0, 2.5), (17.5, 4.0), (12.0, 19.0)]);
    let dense = poly(&[
        (3.0, 2.5),
        (10.25, 3.25),
        (17.5, 4.0),
        (14.75, 11.5),
        (12.0, 19.0),
        (7.5, 10.75),
    ]);
    assert_eq!(filled(24, 24, &plain).data(), filled(24, 24, &dense).data());
}

// ------------------------------------------------------------- the pixmap

#[test]
fn rows_that_are_not_asked_for_are_left_alone() {
    let mut pm = Pixmap::new(2, 4);
    pm.paint_rows(
        Rows { y0: 1, y1: 9 },
        &|_: u32| vec![num(1.0), num(0.0), num(1.0)],
        &|_: u32, y: u32, _: [u8; 4], _: Real| [y as u8; 4],
    );
    assert_eq!(pm.pixel(0, 0), [0; 4]);
    for y in 1..4 {
        assert_eq!(pm.pixel(0, y), [y as u8; 4]);
        assert_eq!(pm.pixel(1, y), [0; 4]);
    }
}

#[test]
fn a_vertex_on_a_sample_line_is_crossed_once() {
    let edges = build_edges(&vec![
        FlatEl::MoveTo(p(0.0, 0.0)),
        FlatEl::LineTo(p(1.0, 1.0)),
        FlatEl::LineTo(p(0.0, 2.0)),
        FlatEl::ClosePath,
    ]);
    assert_eq!(edges.len(), 3);
    // The second edge starts at the vertex; the third is the way back.
    assert_eq!(crossed(&edges, num(1.0)), vec![1, 2]);
    assert_eq!(crossed(&edges, num(2.0)), Vec::<usize>::new());
}

#[test]
fn nothing_is_crossed_outside_the_extent() {
    let edges = build_edges(&flat(&poly(&[(3.0, 2.5), (17.5, 4.0), (12.0, 19.0)])));
    assert_eq!(extent(&edges), (num(2.5), num(19.0)));
    for y in [-3.0, 2.4, 19.0, 30.0] {
        assert_eq!(crossed(&edges, num(y)), Vec::<usize>::new());
    }
    assert_eq!(crossed(&edges, num(2.5)).len(), 2);
    assert_eq!(extent(&vec![]), (num(f64::INFINITY), num(f64::NEG_INFINITY)));
}

#[test]
fn a_clip_without_coverage_at_the_end_of_a_row_has_none_there() {
    let mut clip = Clip::whole(3, 2);
    clip.narrow_rows(Rows { y0: 0, y1: 1 }, &|_: u32| vec![num(0.5), num(0.25)], &times);
    assert_eq!(clip.row(0), &[num(0.5), num(0.25), num(0.0)]);
    assert_eq!(clip.row(1), &[num(0.0); 3]);
    assert!(!clip.is_empty());
    clip.narrow_rows(Rows { y0: 0, y1: 2 }, &|_: u32| vec![num(0.5); 3], &times);
    assert_eq!(clip.row(0), &[num(0.25), num(0.125), num(0.0)]);
    assert_eq!(clip.row(1), &[num(0.0); 3]);
    // Nothing survives, and nothing is narrowed after that.
    clip.narrow_rows(Rows { y0: 1, y1: 2 }, &|_: u32| vec![num(1.0); 3], &times);
    assert!(clip.is_empty());
    assert_eq!(clip.row(0), &[num(0.0); 3]);
    clip.narrow_rows(Rows { y0: 0, y1: 2 }, &|_: u32| vec![num(1.0); 3], &times);
    assert_eq!(clip.row(0), &[num(0.0); 3]);
}

// ------------------------------------------------------------------- clips

fn rect(x0: f64, y0: f64, x1: f64, y1: f64) -> Vec<PathEl> {
    poly(&[(x0, y0), (x1, y0), (x1, y1), (x0, y1)])
}

fn times(a: Real, b: Real) -> Real {
    num(val(a) * val(b))
}

fn clip_of(w: u32, h: u32, path: &[PathEl], rule: FillRule) -> Clip {
    Clip::from_path(w, h, &flat(path), rule, &ruler(w), &sampler())
}

fn narrow(clip: &mut Clip, path: &[PathEl], rule: FillRule) {
    clip.intersect_path(&flat(path), rule, &ruler(clip.width()), &sampler());
}

fn clipped(w: u32, h: u32, path: &[PathEl], clip: Option<&Clip>) -> Pixmap {
    let mut pm = Pixmap::new(w, h);
    fill_within(&mut pm, path, FillRule::NonZero, clip, WHITE);
    pm
}

#[test]
fn clipping_to_a_pixel_rect_matches_a_cropped_render() {
    // The strongest form of the criterion: byte-for-byte, not close.
    let shape = poly(&[(2.0, 1.5), (28.0, 4.0), (20.0, 26.0), (3.0, 18.0)]);
    let clip = clip_of(32, 32, &rect(8.0, 8.0, 20.0, 24.0), FillRule::NonZero);
    let got = clipped(32, 32, &shape, Some(&clip));

    // The manual crop: the unclipped render, zeroed outside the rect.
    let unclipped = clipped(32, 32, &shape, None);
    let mut want = unclipped.data().to_vec();
    for y in 0..32u32 {
        for x in 0..32u32 {
            if !(8..20).contains(&x) || !(8..24).contains(&y) {
                want[((y * 32 + x) * 4) as usize..][..4].fill(0);
            }
        }
    }
    assert_eq!(got.data(), &want[..]);
    // Not vacuous: the clip actually removed something.
    assert!(unclipped.data() != &want[..]);
}

#[test]
fn a_clip_edge_is_anti_aliased_not_a_hard_cut() {
    // A diagonal clip across a solid square. The pixels on the diagonal
    // must be partial, and exactly as partial as filling the diagonal
    // shape itself would make them.
    let tri = poly(&[(0.0, 0.0), (16.0, 16.0), (0.0, 16.0)]);
    let clip = clip_of(16, 16, &tri, FillRule::NonZero);
    let got = clipped(16, 16, &rect(0.0, 0.0, 16.0, 16.0), Some(&clip));
    let want = clipped(16, 16, &tri, None);
    assert_eq!(got.data(), want.data());
    // Not vacuous: the diagonal really is a ramp.
    assert_eq!(cov(&got, 5, 5), 128);
}

#[test]
fn a_partial_clip_scales_a_partial_coverage() {
    // A fully covered pixel under a half clip is a half, and the AA of the
    // clip edge survives into the result rather than being rounded to in
    // or out.
    let clip = clip_of(4, 4, &rect(0.0, 0.0, 1.5, 4.0), FillRule::NonZero);
    let got = clipped(4, 4, &rect(1.0, 0.0, 4.0, 4.0), Some(&clip));
    assert_eq!(cov(&got, 0, 0), 0, "outside the fill");
    assert_eq!(cov(&got, 1, 0), 128, "half a clip over a whole pixel");
    assert_eq!(cov(&got, 2, 0), 0, "outside the clip");

    // Coverage is multiplied, which assumes the two coverages are independent
    // inside the pixel. Where they are not -- a clip edge lying on the fill
    // edge -- the product is 1/4 where the true intersection is 1/2.
    let same = clipped(4, 4, &rect(0.0, 0.0, 1.5, 4.0), Some(&clip));
    assert_eq!(cov(&same, 1, 0), 64);
}

#[test]
fn nested_clips_intersect() {
    let mut clip = clip_of(16, 16, &rect(2.0, 2.0, 12.0, 12.0), FillRule::NonZero);
    narrow(&mut clip, &rect(6.0, 0.0, 16.0, 8.0), FillRule::NonZero);
    let got = clipped(16, 16, &rect(0.0, 0.0, 16.0, 16.0), Some(&clip));
    for y in 0..16u32 {
        for x in 0..16u32 {
            let inside = (6..12).contains(&x) && (2..8).contains(&y);
            assert_eq!(cov(&got, x, y), if inside { 255 } else { 0 }, "({x}, {y})");
        }
    }
    // Order cannot matter, and neither can doing it in one path.
    let mut other = clip_of(16, 16, &rect(6.0, 0.0, 16.0, 8.0), FillRule::NonZero);
    narrow(&mut other, &rect(2.0, 2.0, 12.0, 12.0), FillRule::NonZero);
    assert_eq!(
        clipped(16, 16, &rect(0.0, 0.0, 16.0, 16.0), Some(&other)).data(),
        got.data()
    );
}

#[test]
fn an_empty_clip_renders_nothing() {
    let cases = [
        // No path at all.
        clip_of(16, 16, &[], FillRule::NonZero),
        // A path with no area.
        clip_of(
            16,
            16,
            &poly(&[(1.0, 1.0), (5.0, 1.0), (3.0, 1.0)]),
            FillRule::NonZero,
        ),
        // Entirely off the pixmap.
        clip_of(16, 16, &rect(-8.0, -8.0, -2.0, -2.0), FillRule::NonZero),
        // And two clips that do not meet.
        {
            let mut c = clip_of(16, 16, &rect(0.0, 0.0, 16.0, 4.0), FillRule::NonZero);
            narrow(&mut c, &rect(0.0, 10.0, 16.0, 16.0), FillRule::NonZero);
            c
        },
    ];
    for clip in &cases {
        assert!(clip.is_empty());
        let got = clipped(16, 16, &rect(0.0, 0.0, 16.0, 16.0), Some(clip));
        assert!(got.data().iter().all(|&b| b == 0));
    }
}

#[test]
fn a_clip_honours_its_own_fill_rule() {
    // Two squares wound alike: even-odd punches the overlap out of the
    // clip, so the fill through it has a hole in the same place.
    let mut path = rect(0.0, 0.0, 8.0, 8.0);
    path.extend(rect(4.0, 4.0, 12.0, 12.0));
    let solid = clip_of(16, 16, &path, FillRule::NonZero);
    let holed = clip_of(16, 16, &path, FillRule::EvenOdd);
    let whole = rect(0.0, 0.0, 16.0, 16.0);
    assert_eq!(cov(&clipped(16, 16, &whole, Some(&solid)), 6, 6), 255);
    assert_eq!(cov(&clipped(16, 16, &whole, Some(&holed)), 6, 6), 0);
    assert_eq!(cov(&clipped(16, 16, &whole, Some(&holed)), 2, 2), 255);
}

#[test]
fn a_zero_sized_clip_is_harmless() {
    let mut clip = clip_of(0, 0, &rect(0.0, 0.0, 4.0, 4.0), FillRule::NonZero);
    narrow(&mut clip, &rect(0.0, 0.0, 2.0, 2.0), FillRule::NonZero);
    let pm = clipped(0, 0, &rect(0.0, 0.0, 4.0, 4.0), Some(&clip));
    assert!(pm.data().is_empty());
}

#[test]
fn a_quadratic_and_the_cubic_it_elevates_to_agree() {
    let (a, c, b) = ((5.0, 30.0), (30.0, 2.0), (55.0, 30.0));
    let quad = vec![
        PathEl::MoveTo(p(a.0, a.1)),
        PathEl::QuadTo(p(c.0, c.1), p(b.0, b.1)),
        PathEl::ClosePath,
    ];
    let third = |from: (f64, f64)| {
        p(from.0 + 2.0 / 3.0 * (c.0 - from.0), from.1 + 2.0 / 3.0 * (c.1 - from.1))
    };
    let cubic = vec![
        PathEl::MoveTo(p(a.0, a.1)),
        PathEl::CurveTo(third(a), third(b), p(b.0, b.1)),
        PathEl::ClosePath,
    ];
    assert_eq!(filled(64, 40, &quad).data(), filled(64, 40, &cubic).data());
}

#[test]
fn a_span_gives_the_pixels_at_its_ends_their_fraction() {
    let ruler: Vec<Real> = (0..=4).map(|i| num(f64::from(i))).collect();
    let grow = |c: Real, a: Real, b: Real| num(val(c) + (val(b) - val(a)));
    let row = |a: f64, b: f64| {
        let mut acc = vec![num(0.0); 4];
        add_span(&mut acc, &ruler, (num(a), num(b)), &grow);
        acc.iter().map(|&c| val(c)).collect::<Vec<f64>>()
    };
    assert_eq!(row(0.5, 2.25), [0.5, 1.0, 0.25, 0.0]);
    assert_eq!(row(-3.0, 9.0), [1.0; 4]);
    assert_eq!(row(1.25, 1.75), [0.0, 0.5, 0.0, 0.0]);
    assert_eq!(row(4.0, 7.0), [0.0; 4]);
    assert_eq!(row(2.0, 2.0), [0.0; 4]);
}

// --------------------------------------------------------------- scenes

fn fill_of(path: Vec<PathEl>) -> Draw {
    Draw {
        path,
        paint: Paint::Solid(WHITE),
        rule: FillRule::NonZero,
        blend: BlendMode::Normal,
        clip: Vec::new(),
    }
}

/// Renders a scene of solid fills in the normal mode.
fn rendered(scene: &Scene) -> Pixmap {
    let fill = |mut pm: Pixmap, d: &Draw| {
        let color = match d.paint {
            Paint::Solid(c) => c,
            _ => WHITE,
        };
        let mut clip: Option<Clip> = None;
        for (path, rule) in &d.clip {
            match &mut clip {
                None => clip = Some(clip_of(pm.width(), pm.height(), path, *rule)),
                Some(c) => narrow(c, path, *rule),
            }
        }
        fill_within(&mut pm, &d.path, d.rule, clip.as_ref(), color);
        pm
    };
    let composite = |mut pm: Pixmap, layer: Pixmap, _: BlendMode, alpha: Real| {
        for y in 0..pm.height() {
            for x in 0..pm.width() {
                let (s, mut d) = (layer.pixel(x, y), pm.pixel(x, y));
                let k = 1.0 - f64::from(s[3]) / 255.0 * val(alpha);
                for (d, s) in d.iter_mut().zip(s) {
                    *d = (f64::from(s) * val(alpha) + f64::from(*d) * k).round() as u8;
                }
                pm.set_pixel(x, y, d);
            }
        }
        pm
    };
    scene.render(&fill, &composite)
}

#[test]
fn fill_matches_the_pixmap_method() {
    let mut sc = Scene::new(8, 8);
    sc.fill(rect(1.0, 1.5, 6.25, 7.0), WHITE);

    let mut pm = Pixmap::new(8, 8);
    paint(&mut pm, &rect(1.0, 1.5, 6.25, 7.0), WHITE);
    assert_eq!(rendered(&sc).data(), pm.data());
}

/// A group's alpha scales the finished layer rather than each member: two
/// overlapping opaque squares at group alpha 0.5 do not show a seam.
#[test]
fn a_group_composites_as_one_surface() {
    let mut sc = Scene::new(8, 8);
    sc.push_group(
        vec![
            Node::Fill(fill_of(rect(0.0, 0.0, 5.0, 8.0))),
            Node::Fill(fill_of(rect(3.0, 0.0, 8.0, 8.0))),
        ],
        BlendMode::Normal,
        num(0.5),
    );
    let pm = rendered(&sc);
    let alpha = |x: u32| pm.data()[((x) * 4 + 3) as usize];
    assert_eq!(alpha(1), 128);
    assert_eq!(alpha(4), 128, "the overlap is one surface, not two");
    assert_eq!(alpha(6), 128);
}

/// Nested clip paths intersect, and a clip list is applied in full.
#[test]
fn a_clip_list_intersects() {
    let mut sc = Scene::new(8, 8);
    let mut draw = fill_of(rect(0.0, 0.0, 8.0, 8.0));
    draw.clip = vec![
        (rect(0.0, 0.0, 6.0, 8.0), FillRule::NonZero),
        (rect(2.0, 0.0, 8.0, 8.0), FillRule::NonZero),
    ];
    sc.push(draw);
    let pm = rendered(&sc);
    let alpha = |x: u32| pm.data()[((x) * 4 + 3) as usize];
    assert_eq!(alpha(1), 0);
    assert_eq!(alpha(3), 255);
    assert_eq!(alpha(7), 0);
}

#[test]
fn the_edges_of_a_malformed_path_are_finite_and_run_down() {
    let nan = f64::NAN;
    let path = vec![
        PathEl::LineTo(p(4.0, nan)),
        PathEl::LineTo(p(8.0, 8.0)),
        PathEl::LineTo(p(2.0, 3.0)),
        PathEl::LineTo(p(9.0, 3.0)),
        PathEl::LineTo(p(f64::INFINITY, 1.0)),
        PathEl::ClosePath,
    ];
    let edges = build_edges(&flat(&path));
    assert_eq!(edges.len(), 1);
    let e = edges[0];
    assert_eq!((val(e.top.y), val(e.bot.y), e.dir), (3.0, 8.0, -1));
}

#[test]
fn a_row_that_nothing_crosses_has_no_coverage() {
    let edges = build_edges(&flat(&rect(1.0, 4.0, 3.0, 6.0)));
    for rule in [FillRule::NonZero, FillRule::EvenOdd] {
        for y in [0, 3, 6, 9] {
            assert!(coverage(&edges, y, 5, rule).iter().all(|&c| val(c) == 0.0));
        }
        let row: Vec<f64> = coverage(&edges, 4, 5, rule).iter().map(|&c| val(c)).collect();
        assert_eq!(row, [0.0, 1.0, 1.0, 0.0, 0.0]);
    }
}
