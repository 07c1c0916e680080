use hane::geom::Point;
use hane::geom::Real;
use hane::geom::Rect;
use hane::scene::quadtree::Quadtree;
use hane::scene::tile::TileKey;
use hane::scene::view::View;
use hane::scene::view::MAX_ZOOM;
use hane::scene::view::MIN_ZOOM;

fn num(v: f64) -> Real {
    Real::from_bits(v.to_bits())
}

fn val(r: Real) -> f64 {
    f64::from_bits(r.bits)
}

fn p(x: f64, y: f64) -> Point {
    Point::new(num(x), num(y))
}

fn to_screen(v: &View, at: (f64, f64), zoom: f64, rotation: f64) -> (f64, f64) {
    let (c, s) = (rotation.cos() * zoom, rotation.sin() * zoom);
    (
        c * at.0 - s * at.1 + val(v.pan().x),
        s * at.0 + c * at.1 + val(v.pan().y),
    )
}

fn to_document(v: &View, at: (f64, f64)) -> (f64, f64) {
    let (c, s) = (val(v.rotation()).cos(), val(v.rotation()).sin());
    let dx = (at.0 - val(v.pan().x)) / val(v.zoom());
    let dy = (at.1 - val(v.pan().y)) / val(v.zoom());
    (dx * c + dy * s, -dx * s + dy * c)
}

/// The pan that puts a document point under a screen point.
fn anchored(doc: (f64, f64), screen: (f64, f64), zoom: f64, rotation: f64) -> Point {
    let (x, y) = to_screen(&View::new(), doc, zoom, rotation);
    p(screen.0 - x, screen.1 - y)
}

fn zoom_about(v: &mut View, screen: (f64, f64), factor: f64) {
    let doc = to_document(v, screen);
    let rotation = val(v.rotation());
    let product = num(val(v.zoom()) * factor);
    v.zoom_about(num(factor), product, |z: Real| anchored(doc, screen, val(z), rotation));
}

fn rotate_about(v: &mut View, screen: (f64, f64), delta: f64) {
    let doc = to_document(v, screen);
    let zoom = val(v.zoom());
    let angle = val(v.rotation()) + delta;
    let folded = angle - (angle / core::f64::consts::TAU).round() * core::f64::consts::TAU;
    v.rotate_about(num(delta), num(folded), |r: Real| anchored(doc, screen, zoom, val(r)));
}

#[test]
fn the_limits_are_the_documented_numbers() {
    assert_eq!(MIN_ZOOM, 1e-4f64.to_bits());
    assert_eq!(MAX_ZOOM, 1e6f64.to_bits());
    assert_eq!(View::new(), View::default());
    assert_eq!(View::new().zoom(), num(1.0));
}

fn close(a: (f64, f64), b: (f64, f64), scale: f64) -> bool {
    (a.0 - b.0).hypot(a.1 - b.1) <= 1e-9 * scale
}

fn shown(v: &View, doc: (f64, f64)) -> (f64, f64) {
    to_screen(v, doc, val(v.zoom()), val(v.rotation()))
}

#[test]
fn zoom_keeps_the_cursor_point_fixed() {
    let cursor = (731.0, 419.0);
    let mut v = View::new();
    rotate_about(&mut v, cursor, 0.7);
    for step in 0..40 {
        let doc = to_document(&v, cursor);
        zoom_about(&mut v, cursor, if step % 3 == 0 { 0.5 } else { 1.25 });
        assert!(close(shown(&v, doc), cursor, 4096.0), "step {step}");
    }
}

#[test]
fn rotation_about_the_viewport_centre_holds_that_point() {
    const TAU: f64 = core::f64::consts::TAU;
    let centre = (640.0, 360.0);
    let mut v = View::new();
    zoom_about(&mut v, centre, 3.0);
    let doc = to_document(&v, centre);
    for _ in 0..16 {
        rotate_about(&mut v, centre, TAU / 16.0);
        assert!(close(shown(&v, doc), centre, 4096.0));
        assert!(val(v.rotation()) >= -TAU / 2.0 && val(v.rotation()) <= TAU / 2.0);
    }
    assert!(val(v.rotation()).abs() < 1e-12, "{}", val(v.rotation()));
}

#[test]
fn zoom_limits_hold_and_the_transform_stays_invertible() {
    let cursor = (300.0, 200.0);
    for factor in [0.01, 100.0] {
        let mut v = View::new();
        for _ in 0..64 {
            zoom_about(&mut v, cursor, factor);
            let zoom = val(v.zoom());
            assert!(zoom >= f64::from_bits(MIN_ZOOM) && zoom <= f64::from_bits(MAX_ZOOM));
            // The determinant of the mapping.
            assert!(zoom * zoom > 0.0 && (zoom * zoom).is_finite());
        }
    }
}

#[test]
fn at_a_limit_a_further_zoom_changes_nothing() {
    let mut v = View::new();
    zoom_about(&mut v, (10.0, 10.0), 1e-9);
    assert_eq!(v.zoom(), num(1e-4));
    let before = v;
    zoom_about(&mut v, (500.0, 1.0), 0.5);
    assert_eq!(v, before);
    assert_eq!(View::clamp_zoom(num(f64::INFINITY)), num(1e6));
}

#[test]
fn a_non_finite_gesture_is_dropped_rather_than_stored() {
    let mut v = View::new();
    zoom_about(&mut v, (0.0, 0.0), 2.0);
    let before = v;
    for bad in [f64::NAN, f64::INFINITY, -f64::INFINITY] {
        rotate_about(&mut v, (10.0, 10.0), bad);
        let x = val(v.pan().x) + bad;
        v.pan_by(p(x, val(v.pan().y)));
    }
    for bad in [f64::NAN, f64::INFINITY, -f64::INFINITY, -2.0, 0.0] {
        zoom_about(&mut v, (10.0, 10.0), bad);
    }
    assert_eq!(v, before);
    // A zoom about a point at infinity zooms and keeps the pan.
    zoom_about(&mut v, (f64::INFINITY, 0.0), 2.0);
    assert_eq!(v.pan(), before.pan());
    assert_eq!(v.zoom(), num(4.0));
}

fn visible(v: &View, screen: Rect, margin: f64) -> Rect {
    let grown = Rect::new(
        num(val(screen.x0) - margin),
        num(val(screen.y0) - margin),
        num(val(screen.x1) + margin),
        num(val(screen.y1) + margin),
    );
    v.visible_bounds(grown, |v: View, q: Point| {
        let (x, y) = to_document(&v, (val(q.x), val(q.y)));
        p(x, y)
    })
}

fn rect(x0: f64, y0: f64, x1: f64, y1: f64) -> Rect {
    Rect::new(num(x0), num(y0), num(x1), num(y1))
}

#[test]
fn an_unrotated_viewport_maps_to_its_own_corners() {
    let screen = rect(0.0, 0.0, 1280.0, 720.0);
    let mut view = View::new();
    view.pan_by(p(-100.0, -50.0));
    zoom_about(&mut view, (0.0, 0.0), 2.0);
    assert_eq!(visible(&view, screen, 0.0), rect(100.0, 50.0, 740.0, 410.0));
    assert_eq!(visible(&view, screen, 100.0), rect(50.0, 0.0, 790.0, 460.0));
}

#[test]
fn rotation_grows_the_box_to_the_bound_of_the_turned_viewport() {
    let mut view = View::new();
    let square = rect(0.0, 0.0, 100.0, 100.0);
    let width = |r: Rect| val(r.x1) - val(r.x0);
    let height = |r: Rect| val(r.y1) - val(r.y0);
    let upright = visible(&view, square, 0.0);
    rotate_about(&mut view, (0.0, 0.0), core::f64::consts::FRAC_PI_4);
    let turned = visible(&view, square, 0.0);
    assert!((width(turned) - width(upright) * 2f64.sqrt()).abs() < 1e-9);
    assert!((height(turned) - height(upright) * 2f64.sqrt()).abs() < 1e-9);
    for corner in [(0.0, 0.0), (100.0, 0.0), (0.0, 100.0), (100.0, 100.0)] {
        let (x, y) = to_document(&view, corner);
        assert!(x >= val(turned.x0) - 1e-9 && x <= val(turned.x1) + 1e-9, "{corner:?}");
        assert!(y >= val(turned.y0) - 1e-9 && y <= val(turned.y1) + 1e-9, "{corner:?}");
    }
}

#[test]
fn a_degenerate_viewport_culls_everything_rather_than_nothing() {
    let mut view = View::new();
    rotate_about(&mut view, (3.0, 4.0), 0.9);
    let nan = f64::NAN;
    for screen in [
        Rect::empty(),
        rect(0.0, 0.0, 0.0, 0.0),
        rect(nan, nan, nan, nan),
        rect(0.0, 0.0, 1280.0, 720.0),
    ] {
        let b = visible(&view, screen, -1000.0);
        assert!(!b.overlaps(rect(-1e9, -1e9, 1e9, 1e9)), "{b:?}");
    }
}

#[test]
fn the_visible_set_is_exactly_what_overlaps_the_query_box() {
    let mut seed = 1u64;
    let mut below = |n: u64| {
        seed = seed.wrapping_mul(6364136223846793005).wrapping_add(1442695040888963407);
        ((seed >> 33) % n) as f64
    };
    let items: Vec<(u32, Rect)> = (0..2000)
        .map(|id| {
            let (x, y) = (below(4000) - 2000.0, below(4000) - 2000.0);
            let (w, h) = (below(60) + 1.0, below(60) + 1.0);
            (id, rect(x, y, x + w, y + h))
        })
        .collect();
    let mid = |a: Real, b: Real| num(0.5 * (val(a) + val(b)));
    let tree = Quadtree::bulk_load(rect(-2100.0, -2100.0, 2100.0, 2100.0), &items, mid);
    let screen = rect(0.0, 0.0, 1280.0, 720.0);
    let mut view = View::new();
    for step in 0..40 {
        let pan = view.pan();
        view.pan_by(p(val(pan.x) + 37.0, val(pan.y) - 19.0));
        zoom_about(&mut view, (640.0, 360.0), 1.07);
        if step % 5 == 0 {
            rotate_about(&mut view, (640.0, 360.0), 0.31);
        }
        for margin in [0.0, 128.0] {
            let area = visible(&view, screen, margin);
            let mut got = Vec::new();
            tree.query(area, &mut got);
            got.sort_unstable();
            let want: Vec<u32> =
                items.iter().filter(|i| i.1.overlaps(area)).map(|i| i.0).collect();
            assert_eq!(got, want, "step {step}");
        }
    }
}

#[test]
fn the_tile_side_is_the_documented_number_of_screen_pixels() {
    // Rounding the level keeps a tile between 181 and 362 screen pixels at
    // every zoom in range.
    let (low, high) = (f64::from_bits(MIN_ZOOM), f64::from_bits(MAX_ZOOM));
    for i in 0..=2000 {
        let zoom = low * (high / low).powf(f64::from(i) / 2000.0);
        let mut view = View::new();
        zoom_about(&mut view, (0.0, 0.0), zoom);
        let level = val(view.zoom()).log2().round() as i16;
        let tile = TileKey { level, x: 0, y: 0 }.doc_rect();
        let px = (val(tile.x1) - val(tile.x0)) * val(view.zoom());
        assert!(px > 256.0 / 1.4143 && px < 256.0 * 1.4143, "zoom {zoom}: {px} px");
    }
}
