//! The tile grid and the cache over it.

use hane::geom::{Real, Rect};
use hane::scene::tile::{MAX_VISIBLE, TileCache, TileKey};

const TILE_PX: f64 = 256.0;

/// A small deterministic generator for the randomised cases.
struct Rng(u64);

impl Rng {
    fn new(seed: u64) -> Self {
        let mut rng = Rng(seed.wrapping_mul(0x9e37_79b9_7f4a_7c15) | 1);
        for _ in 0..8 {
            rng.below(2);
        }
        rng
    }

    fn below(&mut self, bound: u64) -> u64 {
        self.0 ^= self.0 << 13;
        self.0 ^= self.0 >> 7;
        self.0 ^= self.0 << 17;
        (self.0 >> 11) % bound
    }
}

fn coord(v: f64) -> Real {
    Real::from_bits(v.to_bits())
}

/// Appends the tiles of a level whose sides are `size` that a box overlaps.
fn visible_of(level: i16, doc: Rect, size: f64, out: &mut Vec<TileKey>) {
    TileKey::visible(
        level,
        doc,
        |v: Real| coord((number(v) / size).floor()),
        |a: Real, b: Real| coord(number(b) - number(a) + 1.0),
        |a: Real, b: Real| coord(number(a) * number(b)),
        |v: Real| number(v) as i32,
        out,
    );
}

fn number(r: Real) -> f64 {
    f64::from_bits(r.bits)
}

fn rect(x0: f64, y0: f64, x1: f64, y1: f64) -> Rect {
    Rect::new(coord(x0), coord(y0), coord(x1), coord(y1))
}

fn empty() -> Rect {
    let inf = f64::INFINITY;
    rect(inf, inf, -inf, -inf)
}

fn doc_size(level: i16) -> f64 {
    TILE_PX * 2f64.powi(-i32::from(level))
}

/// A pan, a zoom and a rotation.
#[derive(Clone, Copy)]
struct Camera {
    pan: (f64, f64),
    zoom: f64,
    rotation: f64,
}

impl Camera {
    fn new() -> Self {
        Camera { pan: (0.0, 0.0), zoom: 1.0, rotation: 0.0 }
    }

    fn to_document(self, s: (f64, f64)) -> (f64, f64) {
        let (c, n) = (self.rotation.cos(), self.rotation.sin());
        let d = ((s.0 - self.pan.0) / self.zoom, (s.1 - self.pan.1) / self.zoom);
        (d.0 * c + d.1 * n, -d.0 * n + d.1 * c)
    }

    fn anchor(&mut self, doc: (f64, f64), s: (f64, f64)) {
        let (c, n) = (self.rotation.cos(), self.rotation.sin());
        let x = (doc.0 * c - doc.1 * n) * self.zoom;
        let y = (doc.0 * n + doc.1 * c) * self.zoom;
        self.pan = (s.0 - x, s.1 - y);
    }

    fn pan_by(&mut self, dx: f64, dy: f64) {
        self.pan = (self.pan.0 + dx, self.pan.1 + dy);
    }

    fn zoom_about(&mut self, s: (f64, f64), factor: f64) {
        let doc = self.to_document(s);
        self.zoom = (self.zoom * factor).clamp(1e-4, 1e6);
        self.anchor(doc, s);
    }

    fn rotate_about(&mut self, s: (f64, f64), delta: f64) {
        let doc = self.to_document(s);
        self.rotation += delta;
        self.anchor(doc, s);
    }

    /// The tiles of a 640 by 480 screen grown by `margin`.
    fn visible(self, margin: f64) -> Vec<TileKey> {
        self.tiles(-margin, -margin, 640.0 + margin, 480.0 + margin)
    }

    fn tiles(self, sx0: f64, sy0: f64, sx1: f64, sy1: f64) -> Vec<TileKey> {
        let mut keys = Vec::new();
        if !(sx0 < sx1 && sy0 < sy1) {
            return keys;
        }
        let corners = [(sx0, sy0), (sx1, sy0), (sx0, sy1), (sx1, sy1)].map(|p| self.to_document(p));
        let fold = |f: fn(f64, f64) -> f64, at: fn((f64, f64)) -> f64| {
            corners.iter().map(|&p| at(p)).reduce(f).unwrap()
        };
        let level = self.zoom.log2().round();
        let size = TILE_PX * 2f64.powi(-(level as i32));
        let doc = Rect::new(
            coord(fold(f64::min, |p| p.0)),
            coord(fold(f64::min, |p| p.1)),
            coord(fold(f64::max, |p| p.0)),
            coord(fold(f64::max, |p| p.1)),
        );
        visible_of(level as i16, doc, size, &mut keys);
        keys
    }
}

/// A scene of axis-aligned boxes with a colour each.
struct Scene {
    objects: Vec<([f64; 4], u8)>,
}

impl Scene {
    fn new(rng: &mut Rng, n: usize) -> Self {
        Self {
            objects: (0..n)
                .map(|_| {
                    let x = rng.below(2000) as f64 - 1000.0;
                    let y = rng.below(2000) as f64 - 1000.0;
                    let (w, h) = (rng.below(200) as f64 + 4.0, rng.below(200) as f64 + 4.0);
                    ([x, y, x + w, y + h], rng.below(255) as u8 + 1)
                })
                .collect(),
        }
    }

    /// Paints one tile from scratch: 64x64 bytes, one per pixel, painter's
    /// algorithm in object order.
    fn render(&self, key: TileKey) -> Vec<u8> {
        const SIDE: usize = 64;
        let rect = key.doc_rect();
        let (x0, y0, x1, y1) = (number(rect.x0), number(rect.y0), number(rect.x1), number(rect.y1));
        let scale = SIDE as f64 / (x1 - x0);
        let mut pixels = vec![0u8; SIDE * SIDE];
        for &(b, colour) in &self.objects {
            let px = |v: f64, lo: f64| (((v - lo) * scale).round() as usize).min(SIDE);
            for row in px(b[1].max(y0), y0)..px(b[3].min(y1), y0) {
                for col in px(b[0].max(x0), x0)..px(b[2].min(x1), x0) {
                    pixels[row * SIDE + col] = colour;
                }
            }
        }
        pixels
    }
}

/// Draws a frame: every visible tile is served or rendered and stored.
/// Returns the keys that had to be rendered.
fn draw(cache: &mut TileCache, scene: &Scene, view: &Camera) -> Vec<TileKey> {
    let mut rendered = Vec::new();
    for key in view.visible(64.0) {
        if cache.get(key).is_none() {
            cache.insert(key, scene.render(key));
            rendered.push(key);
        }
    }
    rendered
}

fn hit_rate(cache: &TileCache) -> f64 {
    let total = cache.hits() + cache.misses();
    if total == 0 {
        0.0
    } else {
        cache.hits() as f64 / total as f64
    }
}

#[test]
fn the_grid_tiles_the_plane_exactly() {
    for level in [-4i16, -1, 0, 1, 7] {
        let a = TileKey { level, x: 3, y: -2 }.doc_rect();
        let b = TileKey { level, x: 4, y: -2 }.doc_rect();
        let c = TileKey { level, x: 3, y: -1 }.doc_rect();
        // Bit-exact, not close: the sizes are powers of two.
        assert_eq!(a.x1, b.x0, "level {level}");
        assert_eq!(a.y1, c.y0, "level {level}");
        assert!(!a.overlaps(b) && !a.overlaps(c));
        assert_eq!(number(a.x1) - number(a.x0), doc_size(level));
    }
}

/// The square against the same products in floating point.
#[test]
fn a_square_is_its_index_times_the_side() {
    let mut rng = Rng::new(21);
    for _ in 0..4000 {
        let level = rng.below(2030) as i16 - 1015;
        let x = rng.below(1 << 32) as u32 as i32;
        let y = [0, 1, -1, i32::MAX, i32::MIN, 77][rng.below(6) as usize];
        let r = TileKey { level, x, y }.doc_rect();
        let size = doc_size(level);
        let (fx, fy) = (f64::from(x) * size, f64::from(y) * size);
        for (got, want) in [(r.x0, fx), (r.y0, fy), (r.x1, fx + size), (r.y1, fy + size)] {
            assert!(got.bits == want.to_bits() || (got.is_nan() && want.is_nan()), "{level} {x} {y}");
        }
    }
    // Past the largest number, and past the smallest.
    let far = TileKey { level: -2000, x: -1, y: 1 }.doc_rect();
    assert_eq!((number(far.x0), number(far.y0)), (f64::NEG_INFINITY, f64::INFINITY));
    assert!(far.x1.is_nan());
    let near = TileKey { level: 2000, x: -1, y: 1 }.doc_rect();
    assert_eq!((number(near.x0), number(near.y1)), (0.0, 0.0));
}

#[test]
fn a_pan_reuses_the_tiles_it_scrolls_over() {
    let mut rng = Rng::new(4);
    let scene = Scene::new(&mut rng, 200);
    let mut cache = TileCache::new(64 << 20);
    let mut view = Camera::new();
    // Over a whole drag no tile is ever rendered twice.
    let mut seen = std::collections::HashSet::new();
    let mut drag = |cache: &mut TileCache, view: &Camera| {
        for key in draw(cache, &scene, view) {
            assert!(seen.insert(key), "{key:?} was rendered twice");
        }
    };
    drag(&mut cache, &view);
    assert!(cache.misses() > 0);
    // 120 frames of a slow drag, out and back.
    for frame in 0..120 {
        let d = if frame < 60 { -3.0 } else { 3.0 };
        view.pan_by(d, d * 0.7);
        drag(&mut cache, &view);
    }
    assert!(hit_rate(&cache) > 0.95, "{}", hit_rate(&cache));
}

#[test]
fn zoom_changes_level_without_discarding_the_level_it_leaves() {
    let mut rng = Rng::new(5);
    let scene = Scene::new(&mut rng, 200);
    let mut cache = TileCache::new(64 << 20);
    let mut view = Camera::new();
    let centre = (320.0, 240.0);
    draw(&mut cache, &scene, &view);
    let at_level_0: Vec<TileKey> = view.visible(64.0);
    assert_eq!(at_level_0[0].level, 0);

    // Past sqrt(2), where the rounded level ticks over to 1.
    view.zoom_about(centre, 1.5);
    draw(&mut cache, &scene, &view);
    let at_level_1 = view.visible(64.0);
    assert_eq!(at_level_1[0].level, 1);
    // The old level is still resident.
    for key in &at_level_0 {
        assert!(cache.get(*key).is_some(), "{key:?} was discarded by a zoom");
    }
    // So zooming back is free.
    let before = cache.misses();
    view.zoom_about(centre, 1.0 / 1.5);
    draw(&mut cache, &scene, &view);
    assert_eq!(cache.misses(), before, "zooming back re-rendered");

    // And a zoom that stays inside one level changes nothing at all.
    let before = cache.misses();
    for _ in 0..8 {
        view.zoom_about(centre, 1.02);
    }
    draw(&mut cache, &scene, &view);
    assert_eq!(cache.misses(), before, "a within-level zoom re-rendered");
}

#[test]
fn an_edit_dirties_the_tiles_it_touches_before_and_after_and_no_others() {
    let mut rng = Rng::new(6);
    let scene = Scene::new(&mut rng, 200);
    let mut cache = TileCache::new(64 << 20);
    let view = Camera::new();
    draw(&mut cache, &scene, &view);
    let keys = view.visible(64.0);

    // A move far enough that the two boxes share no tile.
    let old = rect(-40.0, -40.0, 40.0, 40.0);
    let new = rect(700.0, 500.0, 780.0, 580.0);
    cache.invalidate(old, new);
    for &key in &keys {
        let rect = key.doc_rect();
        let touched = rect.overlaps(old) || rect.overlaps(new);
        assert_eq!(
            cache.get(key).is_none(),
            touched,
            "{key:?} {rect:?} touched={touched}"
        );
    }
    // Both boxes really did hit something.
    assert!(keys.iter().any(|k| k.doc_rect().overlaps(old)));
    assert!(keys.iter().any(|k| k.doc_rect().overlaps(new)));
}

/// Edits and view changes interleaved, each cached tile held against a fresh
/// render. `ghost` drops the "before" box from every invalidation, which is the
/// classic bug.
fn coherent(ghost: bool) -> bool {
    let mut rng = Rng::new(9);
    let mut scene = Scene::new(&mut rng, 120);
    let mut cache = TileCache::new(4 << 20);
    let mut view = Camera::new();
    let centre = (320.0, 240.0);
    for step in 0..120 {
        // Move one object, at a scale that lands it in different tiles.
        let k = rng.below(scene.objects.len() as u64) as usize;
        let b = scene.objects[k].0;
        let (dx, dy) = (rng.below(600) as f64 - 300.0, rng.below(600) as f64 - 300.0);
        let n = [b[0] + dx, b[1] + dy, b[2] + dx, b[3] + dy];
        scene.objects[k].0 = n;
        let old = rect(b[0], b[1], b[2], b[3]);
        let new = rect(n[0], n[1], n[2], n[3]);
        cache.invalidate(if ghost { empty() } else { old }, new);

        match step % 4 {
            0 => view.pan_by(11.0, -7.0),
            1 => view.zoom_about(centre, 1.06),
            2 => view.rotate_about(centre, 0.05),
            _ => view.pan_by(-5.0, 13.0),
        }
        draw(&mut cache, &scene, &view);

        for key in view.visible(64.0) {
            let fresh = scene.render(key);
            if cache.get(key).is_some_and(|cached| cached != fresh) {
                return false;
            }
        }
    }
    // A coherent run that never served a tile proves nothing.
    assert!(hit_rate(&cache) > 0.5, "vacuous: {}", hit_rate(&cache));
    true
}

#[test]
fn a_cached_tile_always_equals_a_fresh_render() {
    assert!(coherent(false), "a stale tile was served");
    assert!(
        !coherent(true),
        "dropping the old box left no ghost to find"
    );
}

#[test]
fn eviction_holds_the_budget_and_keeps_the_recently_used() {
    // Room for four tiles exactly.
    let mut cache = TileCache::new(4000);
    let key = |x| TileKey { level: 0, x, y: 0 };
    for x in 0..4 {
        cache.insert(key(x), vec![x as u8; 1000]);
    }
    assert_eq!(cache.bytes(), 4000);
    // Touch 0, 1 and 3, leaving 2 as the least recently used.
    for x in [0, 1, 3] {
        assert!(cache.get(key(x)).is_some());
    }
    cache.insert(key(9), vec![9; 1000]);
    assert_eq!(cache.bytes(), 4000);
    assert!(cache.get(key(2)).is_none(), "evicted the wrong tile");
    for x in [0, 1, 3, 9] {
        assert!(cache.get(key(x)).is_some(), "tile {x} should have survived");
    }

    // A run of inserts must never exceed the budget, whatever the sizes.
    let mut rng = Rng::new(2);
    for x in 0..500 {
        cache.insert(key(x), vec![0; rng.below(1500) as usize + 1]);
        assert!(cache.bytes() <= 4000, "budget broken at {x}");
    }
    // A tile that cannot fit at all is refused, not stored and not allowed
    // to empty the cache on its way out.
    let before = cache.bytes();
    cache.insert(key(1234), vec![0; 5000]);
    assert_eq!(cache.bytes(), before);
    assert!(cache.get(key(1234)).is_none());
}

#[test]
fn invalidation_and_clearing_keep_the_byte_count_exact() {
    let mut cache = TileCache::new(1 << 20);
    for x in 0..8 {
        cache.insert(TileKey { level: 0, x, y: 0 }, vec![0; 100]);
    }
    assert_eq!(cache.bytes(), 800);
    // Tiles 0..8 cover document x in 0..2048; this box hits two of them.
    cache.invalidate(rect(300.0, 10.0, 600.0, 20.0), empty());
    assert_eq!(cache.bytes(), 600);
    // An empty box on both sides is a no-op, not a flush.
    cache.invalidate(empty(), empty());
    assert_eq!(cache.bytes(), 600);
    cache.clear();
    assert_eq!(cache.bytes(), 0);
}

#[test]
fn a_nonsense_viewport_yields_no_tiles_rather_than_a_hang() {
    let view = Camera::new();
    let inf = f64::INFINITY;
    for (x0, y0, x1, y1) in [
        (inf, inf, -inf, -inf),
        (0.0, 0.0, 0.0, 0.0),
        (f64::NAN, f64::NAN, f64::NAN, f64::NAN),
        // Wider than the cap allows at this level, by a wide margin.
        (0.0, 0.0, 1e9, 1e9),
    ] {
        let keys = view.tiles(x0, y0, x1, y1);
        assert!(keys.is_empty(), "{x0} {y0} {x1} {y1} produced {} tiles", keys.len());
    }
    // A real viewport at both ends of the zoom range stays sane.
    for factor in [1e-4f64, 1e6] {
        let mut v = Camera::new();
        v.zoom_about((0.0, 0.0), factor);
        let keys = v.visible(256.0);
        assert!(!keys.is_empty() && keys.len() < 64, "{}", keys.len());
        assert_eq!(f64::from(keys[0].level), factor.log2().round());
    }
}

#[test]
fn every_tile_the_viewport_touches_is_enumerated() {
    let mut rng = Rng::new(12);
    let mut view = Camera::new();
    for step in 0..40 {
        view.pan_by(rng.below(200) as f64 - 100.0, 17.0);
        view.zoom_about((320.0, 240.0), 1.09);
        if step % 3 == 0 {
            view.rotate_about((320.0, 240.0), 0.4);
        }
        let keys = view.visible(0.0);
        let size = doc_size(keys[0].level);
        for _ in 0..50 {
            let doc = view.to_document((rng.below(640) as f64, rng.below(480) as f64));
            let want = TileKey {
                level: keys[0].level,
                x: (doc.0 / size).floor() as i32,
                y: (doc.1 / size).floor() as i32,
            };
            assert!(keys.contains(&want), "step {step}: {want:?} missing");
        }
    }
}

#[test]
fn a_block_is_enumerated_row_by_row() {
    let mut keys = vec![TileKey { level: 9, x: 9, y: 9 }];
    TileKey::block(2, -1, 5, 1, 6, &mut keys);
    let got: Vec<_> = keys[1..].iter().map(|k| (k.level, k.x, k.y)).collect();
    let want = [(2, -1, 5), (2, 0, 5), (2, 1, 5), (2, -1, 6), (2, 0, 6), (2, 1, 6)];
    assert_eq!(got, want);
    TileKey::block(2, 1, 5, 0, 6, &mut keys);
    TileKey::block(2, 1, 6, 1, 5, &mut keys);
    assert_eq!(keys.len(), 7);
    TileKey::block(0, i32::MAX, i32::MAX, i32::MAX, i32::MAX, &mut keys);
    assert_eq!(keys.len(), 8);
}

#[test]
fn storing_again_replaces_the_tile() {
    let key = TileKey { level: 0, x: 0, y: 0 };
    let mut cache = TileCache::new(10);
    cache.insert(key, vec![1; 4]);
    cache.insert(key, vec![2; 6]);
    assert_eq!(cache.bytes(), 6);
    assert_eq!(cache.get(key), Some(&[2u8; 6][..]));
    assert_eq!((cache.hits(), cache.misses()), (1, 0));
}

#[test]
fn a_viewport_that_needs_too_many_tiles_gets_none() {
    let tiles = |x0: f64, y0: f64, x1: f64, y1: f64| {
        let mut out = Vec::new();
        let doc = Rect::new(coord(x0), coord(y0), coord(x1), coord(y1));
        visible_of(0, doc, TILE_PX, &mut out);
        out.len()
    };
    // The far edge is inclusive, so 127 whole tiles and a bit make 128.
    let far = TILE_PX * 127.5;
    assert_eq!(tiles(0.0, 0.0, far, far), 16384);
    assert_eq!(f64::from_bits(MAX_VISIBLE), 16384.0);
    assert_eq!(tiles(0.0, 0.0, far, far + TILE_PX), 0);
    assert_eq!(tiles(0.0, 0.0, 1.0, 1.0), 1);
    assert_eq!(tiles(0.0, 0.0, -300.0, 1.0), 0);
    assert_eq!(tiles(f64::NAN, 0.0, 1.0, 1.0), 0);
    assert_eq!(tiles(f64::NEG_INFINITY, 0.0, f64::INFINITY, 1.0), 0);
    // A box beyond the last index gets the tile at the edge.
    assert_eq!(tiles(1e300, 0.0, 1e300, 1.0), 1);
}
