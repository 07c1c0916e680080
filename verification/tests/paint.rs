use hane::geom::Point;
use hane::geom::Real;
use hane::raster::clip::Rows;
use hane::raster::fill::Color;
use hane::raster::fill::Pixmap;
use hane::raster::paint::dither;
use hane::raster::paint::Paint;
use hane::raster::paint::Ramp;
use hane::raster::paint::Spread;
use hane::raster::paint::Stop;

const RED: Color = Color { r: 255, g: 0, b: 0, a: 255 };
const BLUE: Color = Color { r: 0, g: 0, b: 255, a: 255 };
const CLEAR: Color = Color { r: 0, g: 0, b: 0, a: 0 };

fn num(v: f64) -> Real {
    Real::from_bits(v.to_bits())
}

fn val(r: Real) -> f64 {
    f64::from_bits(r.bits)
}

fn p(x: f64, y: f64) -> Point {
    Point::new(num(x), num(y))
}

fn stops(pairs: &[(f64, Color)]) -> Vec<Stop> {
    pairs
        .iter()
        .map(|&(offset, color)| Stop { offset: num(offset), color })
        .collect()
}

fn linear(x0: f64, x1: f64, stops: Vec<Stop>, spread: Spread) -> Paint {
    Paint::Linear { start: p(x0, 0.0), end: p(x1, 0.0), stops, spread }
}

/// A straight colour as premultiplied numbers on the 0..=255 scale.
fn premul(c: Color) -> [f64; 4] {
    let a = f64::from(c.a);
    [
        f64::from(c.r) * a / 255.0,
        f64::from(c.g) * a / 255.0,
        f64::from(c.b) * a / 255.0,
        a,
    ]
}

fn length_squared(start: Point, end: Point) -> Real {
    let (dx, dy) = (val(end.x) - val(start.x), val(end.y) - val(start.y));
    num(dx * dx + dy * dy)
}

fn along(start: Point, end: Point, q: Point) -> Real {
    let (dx, dy) = (val(end.x) - val(start.x), val(end.y) - val(start.y));
    let (ux, uy) = (val(q.x) - val(start.x), val(q.y) - val(start.y));
    num((ux * dx + uy * dy) / (dx * dx + dy * dy))
}

fn around(center: Point, radius: Real, focus: Point, q: Point) -> Real {
    let (cx, cy, r) = (val(center.x), val(center.y), val(radius));
    let (mut fx, mut fy) = (val(focus.x), val(focus.y));
    let dist = (fx - cx).hypot(fy - cy);
    if dist > r * 0.999 {
        let k = r * 0.999 / dist;
        (fx, fy) = (cx + (fx - cx) * k, cy + (fy - cy) * k);
    }
    let (ux, uy) = (val(q.x) - fx, val(q.y) - fy);
    let a = ux * ux + uy * uy;
    if a == 0.0 {
        return num(0.0);
    }
    let (ex, ey) = (fx - cx, fy - cy);
    let b = ex * ux + ey * uy;
    let c = ex * ex + ey * ey - r * r;
    num(1.0 / ((-b + (b * b - a * c).sqrt()) / a))
}

fn repeated(t: Real) -> Real {
    num(val(t) - val(t).floor())
}

fn reflected(t: Real) -> Real {
    let h = val(t) * 0.5;
    let r = (h - h.floor()) * 2.0;
    num(if r > 1.0 { 2.0 - r } else { r })
}

/// The premultiplied colour a paint has at a point. Between two stops it is the
/// symmetric lerp: the weights are exactly one and zero at both ends.
fn premul_at(paint: &Paint, q: Point) -> [f64; 4] {
    match paint.at(q, &length_squared, &along, &around, &repeated, &reflected) {
        Ramp::Nothing => [0.0; 4],
        Ramp::Exactly(c) => premul(c),
        Ramp::Between(a, b) => {
            let t = parameter(paint, q);
            let u = (t - val(a.offset)) / (val(b.offset) - val(a.offset));
            let (pa, pb) = (premul(a.color), premul(b.color));
            [0, 1, 2, 3].map(|i| (1.0 - u) * pa[i] + u * pb[i])
        }
    }
}

/// Where on its ramp a gradient is at a point.
fn parameter(paint: &Paint, q: Point) -> f64 {
    match paint {
        Paint::Solid(_) => 0.0,
        Paint::Linear { start, end, spread, .. } => {
            val(spread.map(along(*start, *end, q), &repeated, &reflected))
        }
        Paint::Radial { center, radius, focus, spread, .. } => {
            val(spread.map(around(*center, *radius, *focus, q), &repeated, &reflected))
        }
    }
}

/// A whole pixmap in one paint, dithered unless it is a single colour.
fn painted(w: u32, h: u32, paint: &Paint) -> Pixmap {
    let mut pm = Pixmap::new(w, h);
    let solid = matches!(paint, Paint::Solid(_));
    pm.paint_rows(
        Rows::all(h),
        &|_: u32| vec![num(1.0); w as usize],
        &|x: u32, y: u32, _: [u8; 4], _: Real| {
            let c = premul_at(paint, p(f64::from(x) + 0.5, f64::from(y) + 0.5));
            let nudge = if solid { 0.0 } else { f64::from(dither(x, y)) / 128.0 };
            c.map(|v| (v + nudge).round().clamp(0.0, 255.0) as u8)
        },
    );
    pm
}

fn px(pm: &Pixmap, x: u32, y: u32) -> [u8; 4] {
    pm.pixel(x, y)
}

#[test]
fn a_linear_gradient_ramps_along_its_axis_and_is_flat_across_it() {
    // The paint itself, not the render: dithering deliberately makes the
    // *bytes* vary down a column, and this is the property it varies about.
    let paint = linear(0.0, 64.0, stops(&[(0.0, RED), (1.0, BLUE)]), Spread::Pad);
    for x in 0..64 {
        let got = premul_at(&paint, p(f64::from(x) + 0.5, 0.5));
        for y in 1..8 {
            let q = premul_at(&paint, p(f64::from(x) + 0.5, f64::from(y) * 9.5));
            assert_eq!(got, q, "column {x} varies");
        }
        let t = (f64::from(x) + 0.5) / 64.0;
        assert!((got[0] - 255.0 * (1.0 - t)).abs() < 1e-12, "x={x}: {got:?}");
        assert!((got[2] - 255.0 * t).abs() < 1e-12, "x={x}: {got:?}");
    }
    // A skew axis is only flat across itself to within the arithmetic, so
    // it gets a tolerance rather than equality.
    let skew = Paint::Linear {
        start: p(1.0, 2.0),
        end: p(9.0, 6.0),
        stops: stops(&[(0.0, RED), (1.0, BLUE)]),
        spread: Spread::Pad,
    };
    let base = premul_at(&skew, p(5.0, 4.0));
    // Along the perpendicular (-4, 8) direction, scaled down to stay near.
    for k in [-1.0, -0.25, 0.25, 1.0] {
        let q = premul_at(&skew, p(5.0 - 4.0 * k, 4.0 + 8.0 * k));
        for i in 0..4 {
            assert!((base[i] - q[i]).abs() < 1e-9, "k={k}: {base:?} vs {q:?}");
        }
    }

    // And the render does follow the ramp, to within the dither.
    let pm = painted(64, 8, &paint);
    for x in 0..64 {
        let want = 255.0 * (1.0 - (f64::from(x) + 0.5) / 64.0);
        let got = f64::from(px(&pm, x, 3)[0]);
        assert!((got - want).abs() <= 1.0, "x={x}: {got} vs {want}");
        assert_eq!(px(&pm, x, 3)[3], 255, "an opaque ramp stays opaque");
    }
}

#[test]
fn a_linear_gradient_is_exact_at_its_stops() {
    // Three stops at thirds, sampled at pixel centres that land exactly on
    // them: the middle stop's colour must survive with no interpolation.
    let mid = Color {
        r: 10,
        g: 200,
        b: 30,
        a: 255,
    };
    // The axis is offset by half a pixel so that pixel centres land
    // exactly on t = 0, 1/2 and 1 rather than near them.
    let paint = linear(
        0.5,
        30.5,
        stops(&[(0.0, RED), (0.5, mid), (1.0, BLUE)]),
        Spread::Pad,
    );
    let pm = painted(32, 1, &paint);
    assert_eq!(px(&pm, 0, 0), [255, 0, 0, 255]);
    assert_eq!(px(&pm, 15, 0), [10, 200, 30, 255]);
    assert_eq!(px(&pm, 30, 0), [0, 0, 255, 255]);
}

#[test]
fn a_degenerate_axis_paints_the_last_stop() {
    let paint = linear(10.0, 10.0, stops(&[(0.0, RED), (1.0, BLUE)]), Spread::Pad);
    let pm = painted(4, 1, &paint);
    assert_eq!(px(&pm, 0, 0), [0, 0, 255, 255]);
}

// --------------------------------------------------------------- spread

#[test]
fn the_three_spread_modes_behave() {
    // The ramp occupies x in [8, 16), so x = 0 is t = -0.5 and x = 20 is
    // t = 1.5. Sampled at centres 8.5.. so the values below are exact
    // eighths of the way along.
    let make = |spread| linear(8.0, 16.0, stops(&[(0.0, RED), (1.0, BLUE)]), spread);
    let (pad, repeat, reflect) = (
        make(Spread::Pad),
        make(Spread::Repeat),
        make(Spread::Reflect),
    );
    let at = |paint: &Paint, x: u32| premul_at(paint, p(f64::from(x) + 0.5, 0.0));

    // Inside the ramp all three agree.
    for x in 8..16 {
        assert_eq!(at(&pad, x), at(&repeat, x), "x={x}");
        assert_eq!(at(&pad, x), at(&reflect, x), "x={x}");
    }
    // Pad holds the end colours.
    assert_eq!(at(&pad, 0), [255.0, 0.0, 0.0, 255.0]);
    assert_eq!(at(&pad, 23), [0.0, 0.0, 255.0, 255.0]);
    // Repeat tiles: x and x + 8 match.
    for x in 8..16 {
        assert_eq!(at(&repeat, x), at(&repeat, x + 8), "x={x}");
        assert_eq!(at(&repeat, x), at(&repeat, x - 8), "x={x}");
    }
    // Reflect mirrors about the ends: 16 + k mirrors 15 - k.
    for k in 0..8 {
        assert_eq!(at(&reflect, 16 + k), at(&reflect, 15 - k), "k={k}");
        assert_eq!(at(&reflect, 7 - k), at(&reflect, 8 + k), "k={k}");
    }
}

// --------------------------------------------------------------- radial

#[test]
fn a_concentric_radial_gradient_is_circular() {
    let paint = Paint::Radial {
        center: p(32.0, 32.0),
        radius: num(30.0),
        focus: p(32.0, 32.0),
        stops: stops(&[(0.0, RED), (1.0, BLUE)]),
        spread: Spread::Pad,
    };
    // Equal distance, equal colour, in every direction -- which is the
    // whole of "circular". Twelve directions at four radii.
    for &r in &[3.0, 11.0, 20.0, 29.5] {
        let want = premul_at(&paint, p(32.0 + r, 32.0));
        for k in 1..12 {
            let a = std::f64::consts::TAU * f64::from(k) / 12.0;
            let q = p(32.0 + r * a.cos(), 32.0 + r * a.sin());
            let got = premul_at(&paint, q);
            for i in 0..4 {
                assert!((got[i] - want[i]).abs() < 1e-9, "r={r} k={k}: {got:?}");
            }
        }
        // And the parameter is distance over radius: at r the colour is
        // r/30 of the way from red to blue.
        let t = r / 30.0;
        assert!((want[0] - 255.0 * (1.0 - t)).abs() < 1e-9, "{want:?}");
    }
    assert_eq!(
        premul_at(&paint, p(32.0, 32.0)),
        [255.0, 0.0, 0.0, 255.0]
    );

    // Padded past the circle, and the render agrees.
    let pm = painted(64, 64, &paint);
    assert_eq!(px(&pm, 63, 63), [0, 0, 255, 255]);
    assert_eq!(px(&pm, 32, 32)[0], 248); // half a pixel off centre, dithered
}

#[test]
fn an_offset_focus_pushes_the_ramp_towards_it() {
    let paint = Paint::Radial {
        center: p(32.0, 32.0),
        radius: num(30.0),
        focus: p(16.0, 32.0),
        stops: stops(&[(0.0, RED), (1.0, BLUE)]),
        spread: Spread::Pad,
    };
    // Offset 0 sits at the focus, not the centre.
    assert_eq!(
        premul_at(&paint, p(16.0, 32.0)),
        [255.0, 0.0, 0.0, 255.0]
    );
    assert!(
        premul_at(&paint, p(32.0, 32.0))[0] < 200.0,
        "the centre is no longer the start"
    );
    // The circle itself is still exactly where offset 1 lands, all the way
    // round -- the focus moves the ramp, not the end.
    for k in 0..12 {
        let a = std::f64::consts::TAU * f64::from(k) / 12.0;
        let q = p(32.0 + 30.0 * a.cos(), 32.0 + 30.0 * a.sin());
        let got = premul_at(&paint, q);
        assert!((got[2] - 255.0).abs() < 1e-9, "k={k}: {got:?}");
    }
    // Rays out of the focus are where it is monotone, so walk one.
    let mut prev = -1.0;
    for k in 0..40 {
        let t = premul_at(&paint, p(16.0 + f64::from(k), 32.0))[2];
        assert!(t >= prev, "k={k}: {t} < {prev}");
        prev = t;
    }
}

#[test]
fn a_focus_outside_the_circle_is_pulled_onto_it() {
    // Per SVG. The only requirement is that it stays a gradient rather
    // than dividing by zero or painting one flat colour.
    let paint = Paint::Radial {
        center: p(32.0, 32.0),
        radius: num(10.0),
        focus: p(200.0, 32.0),
        stops: stops(&[(0.0, RED), (1.0, BLUE)]),
        spread: Spread::Pad,
    };
    let pm = painted(64, 64, &paint);
    assert!(px(&pm, 41, 32)[0] > 100, "near the pulled-in focus");
    assert_eq!(px(&pm, 0, 0), [0, 0, 255, 255], "outside the circle");
}

#[test]
fn a_zero_radius_paints_the_last_stop() {
    let paint = Paint::Radial {
        center: p(2.0, 2.0),
        radius: num(0.0),
        focus: p(2.0, 2.0),
        stops: stops(&[(0.0, RED), (1.0, BLUE)]),
        spread: Spread::Pad,
    };
    let pm = painted(4, 4, &paint);
    assert_eq!(px(&pm, 0, 0), [0, 0, 255, 255]);
}

// -------------------------------------------------------- premultiplied

#[test]
fn a_red_to_transparent_ramp_has_no_dark_fringe() {
    // The test the whole premultiplied convention exists for. Every pixel
    // must still be pure red once divided back out, which in the stored
    // form means red == alpha exactly.
    let paint = linear(0.0, 64.0, stops(&[(0.0, RED), (1.0, CLEAR)]), Spread::Pad);
    let pm = painted(64, 1, &paint);
    for x in 0..64 {
        let p = px(&pm, x, 0);
        assert_eq!(p[0], p[3], "x={x}: {p:?} is not pure red");
        assert_eq!([p[1], p[2]], [0, 0], "x={x}: {p:?} gained a channel");
    }
    // And it really does fade: opaque at one end, gone at the other.
    assert_eq!(px(&pm, 0, 0)[3], 253);
    assert_eq!(px(&pm, 63, 0)[3], 2);
}

#[test]
fn a_transparent_stop_carries_no_colour_of_its_own() {
    // Premultiplied, "transparent black" and "transparent red" are the same
    // colour, so both must give the same ramp. Straight interpolation would
    // give one a dark half and the other not.
    let a = painted(
        32,
        1,
        &linear(0.0, 32.0, stops(&[(0.0, RED), (1.0, CLEAR)]), Spread::Pad),
    );
    let clear_red = Color {
        r: 255,
        g: 0,
        b: 0,
        a: 0,
    };
    let b = painted(
        32,
        1,
        &linear(
            0.0,
            32.0,
            stops(&[(0.0, RED), (1.0, clear_red)]),
            Spread::Pad,
        ),
    );
    assert_eq!(a.data(), b.data());
}

// ---------------------------------------------------------------- dither

#[test]
fn ordered_dithering_removes_the_banding_from_a_wide_dark_gradient() {
    // Eight bytes of range over 256 pixels: undithered this is eight hard
    // steps 32 pixels wide, the textbook banding case.
    let dark = Color {
        r: 8,
        g: 8,
        b: 8,
        a: 255,
    };
    let paint = linear(
        0.0,
        256.0,
        stops(&[
            (
                0.0,
                Color {
                    r: 0,
                    g: 0,
                    b: 0,
                    a: 255,
                },
            ),
            (1.0, dark),
        ]),
        Spread::Pad,
    );
    let pm = painted(256, 32, &paint);

    // Banding is a *local* error: the mean over a tile is far from the
    // exact value, and constant across the tile. Measure both the dithered
    // render and the plain rounding it replaces, over 8x8 tiles.
    let exact = |x: u32| 8.0 * (f64::from(x) + 0.5) / 256.0;
    let (mut worst_dither, mut worst_round) = (0.0f64, 0.0f64);
    for ty in 0..4 {
        for tx in 0..32 {
            let (mut got, mut want, mut rounded) = (0.0, 0.0, 0.0);
            for y in 0..8 {
                for x in 0..8 {
                    let x = tx * 8 + x;
                    got += f64::from(px(&pm, x, ty * 8 + y)[0]);
                    want += exact(x);
                    rounded += exact(x).round();
                }
            }
            worst_dither = worst_dither.max((got - want).abs() / 64.0);
            worst_round = worst_round.max((rounded - want).abs() / 64.0);
        }
    }
    // The undithered error is the banding: half a byte, everywhere inside
    // a band. The dithered error is bounded by the 1/64 of the matrix plus
    // the ramp's own variation across a tile.
    // The undithered error is the banding: most of a byte, and constant
    // across a whole band. The dithered one is bounded by the 1/64 the
    // matrix can resolve, and measures 0 -- a linear ramp over a whole
    // tile hits every threshold exactly once, so the mean is exact.
    assert!(
        worst_round > 0.3,
        "the reference is not banded: {worst_round}"
    );
    assert!(
        worst_dither < 1.0 / 64.0,
        "dither left {worst_dither} of band, reference {worst_round}"
    );
    // The pixels themselves are still exact bytes of the ramp, never an
    // average: dithering trades spatial noise for the mean, it does not
    // smooth anything.
    for x in 0..256 {
        let v = px(&pm, x, 0)[0];
        assert!(v <= 8, "x={x}: {v} is outside the ramp");
    }
}

#[test]
fn a_solid_paint_is_never_dithered() {
    // Dithering a flat colour would be pure damage, and it is the same
    // blend as the gradient path.
    let pm = painted(
        8,
        8,
        &Paint::Solid(Color {
            r: 3,
            g: 200,
            b: 17,
            a: 129,
        }),
    );
    for y in 0..8 {
        for x in 0..8 {
            assert_eq!(px(&pm, x, y), px(&pm, 0, 0), "({x}, {y})");
        }
    }
}

// ------------------------------------------------------------ degenerate

#[test]
fn degenerate_ramps_are_harmless() {
    let paints = [
        linear(0.0, 8.0, vec![], Spread::Pad),
        linear(0.0, 8.0, stops(&[(0.5, RED)]), Spread::Repeat),
        // Two stops at the same offset: a hard edge, not a divide by zero.
        linear(
            0.0,
            8.0,
            stops(&[(0.0, RED), (0.5, RED), (0.5, BLUE), (1.0, BLUE)]),
            Spread::Reflect,
        ),
        // Offsets outside [0, 1], and a non-finite axis.
        linear(0.0, 8.0, stops(&[(-2.0, RED), (3.0, BLUE)]), Spread::Pad),
        linear(
            f64::NAN,
            8.0,
            stops(&[(0.0, RED), (1.0, BLUE)]),
            Spread::Repeat,
        ),
    ];
    for paint in &paints {
        let pm = painted(8, 4, paint);
        // The only real requirement: no panic, and no channel above alpha.
        for y in 0..4 {
            for x in 0..8 {
                let p = px(&pm, x, y);
                assert!(p[0] <= p[3] && p[1] <= p[3] && p[2] <= p[3], "{p:?}");
            }
        }
    }
    // The hard edge really is hard.
    let pm = painted(
        8,
        1,
        &linear(
            0.0,
            8.0,
            stops(&[(0.0, RED), (0.5, RED), (0.5, BLUE), (1.0, BLUE)]),
            Spread::Pad,
        ),
    );
    assert_eq!(px(&pm, 3, 0), [255, 0, 0, 255]);
    assert_eq!(px(&pm, 4, 0), [0, 0, 255, 255]);
}

#[test]
fn a_parameter_without_a_place_lies_at_an_end() {
    for spread in [Spread::Pad, Spread::Repeat, Spread::Reflect] {
        let at = |t: f64| val(spread.map(num(t), &repeated, &reflected));
        assert_eq!(at(f64::INFINITY), 1.0);
        assert_eq!(at(f64::NEG_INFINITY), 0.0);
        assert_eq!(at(f64::NAN), 0.0);
        assert_eq!(at(0.25), 0.25);
    }
    let pad = |t: f64| val(Spread::Pad.map(num(t), &repeated, &reflected));
    assert_eq!((pad(-0.5), pad(1.5), pad(1.0)), (0.0, 1.0, 1.0));
    let repeat = |t: f64| val(Spread::Repeat.map(num(t), &repeated, &reflected));
    assert_eq!((repeat(1.25), repeat(-0.25)), (0.25, 0.75));
    let reflect = |t: f64| val(Spread::Reflect.map(num(t), &repeated, &reflected));
    assert_eq!((reflect(1.25), reflect(-0.25), reflect(1.0)), (0.75, 0.25, 1.0));
}
