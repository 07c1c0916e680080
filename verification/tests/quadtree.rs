//! The spatial index against a linear scan.

use hane::geom::{Real, Rect};
use hane::scene::quadtree::{MAX_DEPTH, Quadtree};

/// A small deterministic generator for the randomised cases.
struct Rng(u64);

impl Rng {
    fn new(seed: u64) -> Self {
        let mut rng = Rng(seed.wrapping_mul(0x9e37_79b9_7f4a_7c15) | 1);
        for _ in 0..8 {
            rng.below(2);
        }
        rng
    }

    fn below(&mut self, bound: u64) -> u64 {
        self.0 ^= self.0 << 13;
        self.0 ^= self.0 >> 7;
        self.0 ^= self.0 << 17;
        (self.0 >> 11) % bound
    }
}

fn coord(v: f64) -> Real {
    Real::from_bits(v.to_bits())
}

fn rect(x0: f64, y0: f64, x1: f64, y1: f64) -> Rect {
    Rect::new(coord(x0), coord(y0), coord(x1), coord(y1))
}

/// The middle of a side.
fn mid(a: Real, b: Real) -> Real {
    coord(0.5 * (f64::from_bits(a.bits) + f64::from_bits(b.bits)))
}

type Tree = Quadtree<fn(Real, Real) -> Real>;

fn doc() -> Rect {
    rect(0.0, 0.0, 1024.0, 1024.0)
}

fn empty() -> Rect {
    let inf = f64::INFINITY;
    rect(inf, inf, -inf, -inf)
}

fn tree() -> Tree {
    Quadtree::new(doc(), mid)
}

/// A box in `0..1024` squared, sized 0..64, plus degenerate draws.
fn item(rng: &mut Rng) -> Rect {
    let x = rng.below(1024) as f64;
    let y = rng.below(1024) as f64;
    match rng.below(8) {
        0 => rect(x, y, x, y),                         // zero area
        1 => rect(-10.0, -10.0, 2000.0, 2000.0),       // spans everything
        2 => rect(512.0, 512.0, 513.0, 513.0),         // coincident cluster
        3 => rect(x - 4000.0, y, x - 3900.0, y + 1.0), // outside bounds
        _ => {
            let (w, h) = (rng.below(64) as f64 + 1.0, rng.below(64) as f64 + 1.0);
            rect(x, y, x + w, y + h)
        }
    }
}

fn brute(items: &[(u32, Rect)], area: Rect) -> Vec<u32> {
    let mut v: Vec<u32> = items
        .iter()
        .filter(|(_, b)| b.overlaps(area))
        .map(|&(id, _)| id)
        .collect();
    v.sort_unstable();
    v
}

fn sorted(tree: &Tree, area: Rect) -> Vec<u32> {
    let mut v = Vec::new();
    tree.query(area, &mut v);
    v.sort_unstable();
    v
}

#[test]
fn query_matches_a_linear_scan() {
    for seed in 0..64u64 {
        let mut rng = Rng::new(seed);
        let items: Vec<(u32, Rect)> = (0..200).map(|i| (i, item(&mut rng))).collect();
        let mut tree = tree();
        for &(id, bbox) in &items {
            tree.insert(id, bbox);
        }
        let bulk: Tree = Quadtree::bulk_load(doc(), &items, mid);
        for _ in 0..20 {
            let area = item(&mut rng);
            let want = brute(&items, area);
            assert_eq!(sorted(&tree, area), want, "seed {seed}, area {area:?}");
            assert_eq!(
                sorted(&bulk, area),
                want,
                "bulk, seed {seed}, area {area:?}"
            );
        }
    }
}

#[test]
fn update_does_not_rebuild_and_stays_exact() {
    let mut rng = Rng::new(7);
    let mut items: Vec<(u32, Rect)> = (0..300).map(|i| (i, item(&mut rng))).collect();
    let mut tree: Tree = Quadtree::bulk_load(doc(), &items, mid);
    let nodes_after_load = tree.node_count();
    for _ in 0..500 {
        let k = rng.below(items.len() as u64) as usize;
        let (id, old) = items[k];
        let new = item(&mut rng);
        tree.update(id, old, new);
        items[k].1 = new;
    }
    // One insert can create at most one node, so a move costs a cell at worst,
    // never a rebuild.
    assert!(tree.node_count() <= nodes_after_load + 500);
    for _ in 0..50 {
        let area = item(&mut rng);
        assert_eq!(sorted(&tree, area), brute(&items, area));
    }
}

#[test]
fn removing_everything_empties_the_tree() {
    let mut rng = Rng::new(11);
    let items: Vec<(u32, Rect)> = (0..300).map(|i| (i, item(&mut rng))).collect();
    let mut tree = tree();
    for &(id, bbox) in &items {
        tree.insert(id, bbox);
    }
    for &(id, bbox) in &items {
        assert!(tree.remove(id, bbox), "id {id} not found");
        assert!(!tree.remove(id, bbox), "id {id} removed twice");
    }
    assert!(sorted(&tree, doc()).is_empty());
}

#[test]
fn coincident_items_do_not_recurse_without_bound() {
    // 10k identical boxes: no subdivision can separate them, so only the
    // depth cap stops the descent.
    let bbox = rect(1.0, 1.0, 2.0, 2.0);
    let mut tree = tree();
    for id in 0..10_000 {
        tree.insert(id, bbox);
    }
    assert!(
        tree.node_count() <= MAX_DEPTH as usize + 1,
        "{} nodes for one point",
        tree.node_count()
    );
    assert_eq!(sorted(&tree, bbox).len(), 10_000);
    assert!(sorted(&tree, rect(500.0, 500.0, 600.0, 600.0)).is_empty());
}

#[test]
fn degenerate_bounds_still_answer_correctly() {
    // An empty root: every midpoint is NaN, so nothing descends and the tree is
    // a linear scan. Slow, but not wrong.
    let items = [
        (0u32, rect(0.0, 0.0, 1.0, 1.0)),
        (1, rect(10.0, 10.0, 11.0, 11.0)),
        (2, empty()),
    ];
    let trees: [Tree; 2] = [
        Quadtree::bulk_load(empty(), &items, mid),
        Quadtree::bulk_load(rect(0.0, 0.0, 0.0, 0.0), &items, mid),
    ];
    for tree in trees {
        assert_eq!(sorted(&tree, rect(-1.0, -1.0, 5.0, 5.0)), vec![0]);
        assert_eq!(sorted(&tree, rect(0.0, 0.0, 100.0, 100.0)), vec![0, 1]);
        // A query with no area matches nothing, mirroring `overlaps`.
        assert!(sorted(&tree, empty()).is_empty());
    }
}

#[test]
fn bulk_load_and_insertion_agree_on_every_query() {
    let mut rng = Rng::new(3);
    let items: Vec<(u32, Rect)> = (0..5000).map(|i| (i, item(&mut rng))).collect();
    let mut inserted = tree();
    for &(id, bbox) in &items {
        inserted.insert(id, bbox);
    }
    let mut bulk: Tree = Quadtree::bulk_load(doc(), &items, mid);
    for _ in 0..100 {
        let area = item(&mut rng);
        assert_eq!(sorted(&bulk, area), sorted(&inserted, area));
    }
    // Removal must work against a bulk-loaded shape too, which is the real
    // risk: placement differs from what insertion would have built.
    for &(id, bbox) in &items {
        assert!(bulk.remove(id, bbox), "id {id} not found");
    }
    assert!(sorted(&bulk, doc()).is_empty());
}

#[test]
fn a_query_appends_to_what_is_there() {
    let mut tree = tree();
    tree.insert(5, rect(1.0, 1.0, 2.0, 2.0));
    assert_eq!(tree.node_count(), 1);
    let mut out = vec![9];
    tree.query(doc(), &mut out);
    assert_eq!(out, [9, 5]);
    tree.query(rect(2.0, 2.0, 3.0, 3.0), &mut out); // touching is no overlap
    assert_eq!(out, [9, 5]);
}
