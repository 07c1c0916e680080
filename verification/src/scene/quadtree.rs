//! A quadtree over document-space bounding boxes.
//!
//! Tuned for heavy incremental update: the path an item takes down the tree is
//! a function of its bounding box and the cells, which makes removal a descent
//! rather than a search.
//!
//! # Placement rule
//!
//! An item lives at a node whose cell *wholly contains* its bounding box, so no
//! item is ever stored in more than one node and a query never has to
//! de-duplicate. An item straddling the split of a node stops there. A node
//! only starts pushing items into children once it holds [`SPLIT`] of them, and
//! items already resting at a node are never pushed down. So removal checks
//! every node on the way down.
//!
//! Where a cell is split is given by the caller, as a function from the two
//! ends of a side to the point between them. Whatever it returns, every query
//! answers as a scan over all items would.

use vstd::prelude::*;
use vstd::multiset::Multiset;
use crate::geom;
use crate::geom::Real;
use crate::geom::Rect;

verus! {

/// Depth cap. A dense cluster of coincident items would otherwise subdivide
/// forever, since no amount of subdivision separates boxes that are equal.
pub const MAX_DEPTH: u8 = 12;

/// How many items a node holds before it starts pushing new ones into
/// children.
pub const SPLIT: usize = 32;

/// An item: the caller's id and its bounding box.
pub type Item = (u32, Rect);

/// One node: where it splits, the items resting at it and its children in
/// quadrant order: `(-x,-y)`, `(+x,-y)`, `(-x,+y)`, `(+x,+y)`.
struct Node {
    mx: Real,
    my: Real,
    items: Vec<Item>,
    c0: Option<Box<Node>>,
    c1: Option<Box<Node>>,
    c2: Option<Box<Node>>,
    c3: Option<Box<Node>>,
}

/// The quadrant wholly containing `bbox` of a cell split at `(mx, my)`, or
/// nothing when `bbox` straddles the split or the split is no number.
pub open spec fn quarter(mx: Real, my: Real, bbox: Rect) -> Option<int> {
    let right = mx.at_most(bbox.x0);
    let below = my.at_most(bbox.y0);
    if (bbox.x1.at_most(mx) || right) && (bbox.y1.at_most(my) || below) {
        Some(
            (if right {
                1int
            } else {
                0
            }) + (if below {
                2int
            } else {
                0
            }),
        )
    } else {
        None
    }
}

/// The cell of quadrant `q` of a cell split at `(mx, my)`.
pub open spec fn subcell(cell: Rect, mx: Real, my: Real, q: int) -> Rect {
    Rect {
        x0: if q % 2 == 0 {
            cell.x0
        } else {
            mx
        },
        x1: if q % 2 == 0 {
            mx
        } else {
            cell.x1
        },
        y0: if q < 2 {
            cell.y0
        } else {
            my
        },
        y1: if q < 2 {
            my
        } else {
            cell.y1
        },
    }
}

/// A box in a cell lies in the cell of its quadrant.
pub proof fn a_quadrant_holds_its_boxes(cell: Rect, mx: Real, my: Real, bbox: Rect)
    requires
        cell.holds(bbox),
    ensures
        quarter(mx, my, bbox) matches Some(q) ==> 0 <= q < 4 && subcell(cell, mx, my, q).holds(
            bbox,
        ),
{
}

/// Whether a box has a place in a tree over `bounds`: it is not backwards, and
/// it lies inside.
pub open spec fn has_place(bounds: Rect, bbox: Rect) -> bool {
    bbox.x0.at_most(bbox.x1) && bbox.y0.at_most(bbox.y1) && bounds.holds(bbox)
}

impl Node {
    spec fn child(self, q: int) -> Option<Box<Node>> {
        if q == 0 {
            self.c0
        } else if q == 1 {
            self.c1
        } else if q == 2 {
            self.c2
        } else {
            self.c3
        }
    }

    /// Every item of the subtree, a node's own before its children's.
    spec fn all(self) -> Seq<Item>
        decreases self,
    {
        self.items@ + all_of(self.c0) + all_of(self.c1) + all_of(self.c2) + all_of(self.c3)
    }

    /// The number of nodes of the subtree.
    spec fn count(self) -> nat
        decreases self,
    {
        1 + count_of(self.c0) + count_of(self.c1) + count_of(self.c2) + count_of(self.c3)
    }

    /// Every item below the node has a place in its cell and lies in its quadrant,
    /// and the subtree is no more than `depth` deep.
    spec fn wf(self, cell: Rect, depth: nat) -> bool
        decreases self,
    {
        &&& wf_of(self.c0, cell, self.mx, self.my, 0, depth)
        &&& wf_of(self.c1, cell, self.mx, self.my, 1, depth)
        &&& wf_of(self.c2, cell, self.mx, self.my, 2, depth)
        &&& wf_of(self.c3, cell, self.mx, self.my, 3, depth)
    }
}

spec fn all_of(n: Option<Box<Node>>) -> Seq<Item>
    decreases n,
{
    match n {
        Some(node) => node.all(),
        None => Seq::empty(),
    }
}

spec fn count_of(n: Option<Box<Node>>) -> nat
    decreases n,
{
    match n {
        Some(node) => node.count(),
        None => 0,
    }
}

spec fn wf_of(
    n: Option<Box<Node>>,
    cell: Rect,
    mx: Real,
    my: Real,
    q: int,
    depth: nat,
) -> bool
    decreases n,
{
    match n {
        Some(node) => {
            &&& depth > 0
            &&& node.wf(subcell(cell, mx, my, q), (depth - 1) as nat)
            &&& forall|it: Item| #[trigger]
                node.all().contains(it) ==> quarter(mx, my, it.1) == Some(q) && has_place(
                cell,
                it.1,
            )
        },
        None => true,
    }
}

/// The ids of the items among the first `n` whose boxes overlap `area`.
pub open spec fn matching(items: Seq<Item>, area: Rect, n: int) -> Seq<u32>
    decreases n,
{
    if n <= 0 {
        Seq::empty()
    } else if items[n - 1].1.meets(area) {
        matching(items, area, n - 1).push(items[n - 1].0)
    } else {
        matching(items, area, n - 1)
    }
}

/// The ids a scan of all items finds.
pub open spec fn scan(items: Seq<Item>, area: Rect) -> Seq<u32> {
    matching(items, area, items.len() as int)
}

proof fn lemma_matching_prefix(a: Seq<Item>, b: Seq<Item>, area: Rect, n: int)
    requires
        0 <= n <= a.len(),
    ensures
        matching(a + b, area, n) == matching(a, area, n),
    decreases n,
{
    if n > 0 {
        lemma_matching_prefix(a, b, area, n - 1);
    }
}

/// A scan of two lists is the scans of both.
proof fn lemma_scan_add(a: Seq<Item>, b: Seq<Item>, area: Rect)
    ensures
        scan(a + b, area) == scan(a, area) + scan(b, area),
    decreases b.len(),
{
    if b.len() == 0 {
        assert(a + b =~= a);
        assert(scan(a, area) + scan(b, area) =~= scan(a, area));
    } else {
        let c = b.drop_last();
        lemma_scan_add(a, c, area);
        assert(a + b =~= (a + c).push(b.last()));
        assert((a + c) + seq![b.last()] =~= a + b);
        lemma_matching_prefix(a + c, seq![b.last()], area, (a + c).len() as int);
        assert(c + seq![b.last()] =~= b);
        lemma_matching_prefix(c, seq![b.last()], area, c.len() as int);
        assert(scan(a + b, area) =~= scan(a, area) + scan(b, area));
    }
}

/// A scan of items none of which overlaps finds nothing.
proof fn lemma_scan_none(a: Seq<Item>, area: Rect, n: int)
    requires
        0 <= n <= a.len(),
        forall|i: int| 0 <= i < n ==> !(#[trigger] a[i]).1.meets(area),
    ensures
        matching(a, area, n) == Seq::<u32>::empty(),
    decreases n,
{
    if n > 0 {
        lemma_scan_none(a, area, n - 1);
    }
}

fn quadrant(mx: Real, my: Real, bbox: Rect) -> (q: Option<u8>)
    ensures
        match quarter(mx, my, bbox) {
            Some(k) => q matches Some(r) && r == k && r < 4,
            None => q is None,
        },
{
    let left = bbox.x1.not_above(mx);
    let right = mx.not_above(bbox.x0);
    let above = bbox.y1.not_above(my);
    let below = my.not_above(bbox.y0);
    if (left || right) && (above || below) {
        Some(
            (if right {
                1u8
            } else {
                0
            }) + (if below {
                2u8
            } else {
                0
            }),
        )
    } else {
        None
    }
}

fn child_rect(cell: Rect, mx: Real, my: Real, q: u8) -> (r: Rect)
    requires
        q < 4,
    ensures
        r == subcell(cell, mx, my, q as int),
{
    let (x0, x1): (Real, Real) = if q % 2 == 0 {
        (cell.x0, mx)
    } else {
        (mx, cell.x1)
    };
    let (y0, y1): (Real, Real) = if q < 2 {
        (cell.y0, my)
    } else {
        (my, cell.y1)
    };
    Rect { x0, y0, x1, y1 }
}

fn placeable(bounds: Rect, bbox: Rect) -> (r: bool)
    ensures
        r == has_place(bounds, bbox),
{
    bbox.x0.not_above(bbox.x1) && bbox.y0.not_above(bbox.y1) && bounds.contains_rect(bbox)
}

/// Appends what a scan of `items` finds.
fn scan_items(items: &Vec<Item>, area: Rect, out: &mut Vec<u32>)
    ensures
        final(out)@ == old(out)@ + scan(items@, area),
{
    let mut i: usize = 0;
    assert(out@ =~= old(out)@ + matching(items@, area, 0));
    while i < items.len()
        invariant
            i <= items@.len(),
            out@ == old(out)@ + matching(items@, area, i as int),
        decreases items@.len() - i,
    {
        let (id, bbox) = items[i];
        if bbox.overlaps(area) {
            out.push(id);
        }
        i += 1;
        assert(out@ =~= old(out)@ + matching(items@, area, i as int));
    }
}

fn query_node(node: &Node, cell: Rect, area: Rect, out: &mut Vec<u32>, depth: Ghost<nat>)
    requires
        node.wf(cell, depth@),
    ensures
        final(out)@ == old(out)@ + scan(node.all(), area),
    decreases *node,
{
    scan_items(&node.items, area, out);
    query_child(&node.c0, cell, node.mx, node.my, 0, area, out, depth);
    query_child(&node.c1, cell, node.mx, node.my, 1, area, out, depth);
    query_child(&node.c2, cell, node.mx, node.my, 2, area, out, depth);
    query_child(&node.c3, cell, node.mx, node.my, 3, area, out, depth);
    proof {
        let a = node.items@;
        let b = all_of(node.c0);
        let c = all_of(node.c1);
        let d = all_of(node.c2);
        let e = all_of(node.c3);
        lemma_scan_add(a, b, area);
        lemma_scan_add(a + b, c, area);
        lemma_scan_add(a + b + c, d, area);
        lemma_scan_add(a + b + c + d, e, area);
        assert(out@ =~= old(out)@ + scan(node.all(), area));
    }
}

fn query_child(
    child: &Option<Box<Node>>,
    cell: Rect,
    mx: Real,
    my: Real,
    q: u8,
    area: Rect,
    out: &mut Vec<u32>,
    depth: Ghost<nat>,
)
    requires
        q < 4,
        wf_of(*child, cell, mx, my, q as int, depth@),
    ensures
        final(out)@ == old(out)@ + scan(all_of(*child), area),
    decreases *child,
{
    match child {
        Some(node) => {
            let sub = child_rect(cell, mx, my, q);
            if sub.overlaps(area) {
                query_node(node, sub, area, out, Ghost((depth@ - 1) as nat));
            } else {
                proof {
                    let all = node.all();
                    assert forall|i: int| 0 <= i < all.len() implies !(
                    #[trigger] all[i]).1.meets(area) by {
                        assert(all.contains(all[i]));
                        a_quadrant_holds_its_boxes(cell, mx, my, all[i].1);
                        if all[i].1.meets(area) {
                            geom::holding_carries_meeting(sub, all[i].1, area);
                        }
                    }
                    lemma_scan_none(all, area, all.len() as int);
                    assert(out@ =~= old(out)@ + scan(all, area));
                }
            }
        },
        None => {
            assert(out@ =~= old(out)@ + scan(all_of(*child), area));
        },
    }
}

/// The items of a subtree, without their order.
spec fn held(node: Node) -> Multiset<Item> {
    node.all().to_multiset()
}

spec fn held_of(n: Option<Box<Node>>) -> Multiset<Item> {
    all_of(n).to_multiset()
}

/// The items of a subtree are those of the node and of its children.
proof fn lemma_held(node: Node)
    ensures
        held(node) == node.items@.to_multiset().add(held_of(node.c0)).add(held_of(node.c1)).add(
            held_of(node.c2),
        ).add(held_of(node.c3)),
{
    let a = node.items@;
    let b = all_of(node.c0);
    let c = all_of(node.c1);
    let d = all_of(node.c2);
    let e = all_of(node.c3);
    vstd::seq_lib::lemma_multiset_commutative(a, b);
    vstd::seq_lib::lemma_multiset_commutative(a + b, c);
    vstd::seq_lib::lemma_multiset_commutative(a + b + c, d);
    vstd::seq_lib::lemma_multiset_commutative(a + b + c + d, e);
}

proof fn lemma_contains(s: Seq<Item>, it: Item)
    ensures
        s.contains(it) <==> s.to_multiset().count(it) > 0,
{
    broadcast use vstd::seq_lib::group_to_multiset_ensures;

}

/// The tree node for an empty cell.
fn empty_node<F: Fn(Real, Real) -> Real>(cell: Rect, mid: &F) -> (node: Node)
    requires
        forall|a: Real, b: Real| mid.requires((a, b)),
    ensures
        node.all() == Seq::<Item>::empty(),
        node.items@ == Seq::<Item>::empty(),
        node.count() == 1,
        forall|c: Rect, d: nat| #[trigger] node.wf(c, d),
        node.c0 is None && node.c1 is None && node.c2 is None && node.c3 is None,
        mid.ensures((cell.x0, cell.x1), node.mx),
        mid.ensures((cell.y0, cell.y1), node.my),
{
    let mx = mid(cell.x0, cell.x1);
    let my = mid(cell.y0, cell.y1);
    let node = Node { mx, my, items: Vec::new(), c0: None, c1: None, c2: None, c3: None };
    assert(node.all() =~= Seq::<Item>::empty()) by {
        reveal_with_fuel(all_of, 2);
    }
    assert(node.count() == 1) by {
        reveal_with_fuel(count_of, 2);
    }
    assert forall|c: Rect, d: nat| #[trigger] node.wf(c, d) by {
        reveal_with_fuel(wf_of, 2);
    }
    node
}

impl Node {
    /// Everything but child `q` is the same.
    spec fn same_but(self, other: Node, q: int) -> bool {
        &&& self.mx == other.mx && self.my == other.my
        &&& self.items == other.items
        &&& q != 0 ==> self.c0 == other.c0
        &&& q != 1 ==> self.c1 == other.c1
        &&& q != 2 ==> self.c2 == other.c2
        &&& q != 3 ==> self.c3 == other.c3
    }

    fn take_child(&mut self, q: u8) -> (c: Option<Box<Node>>)
        requires
            q < 4,
        ensures
            c == old(self).child(q as int),
            final(self).child(q as int) is None,
            final(self).same_but(*old(self), q as int),
    {
        if q == 0 {
            self.c0.take()
        } else if q == 1 {
            self.c1.take()
        } else if q == 2 {
            self.c2.take()
        } else {
            self.c3.take()
        }
    }

    fn put_child(&mut self, q: u8, c: Box<Node>)
        requires
            q < 4,
        ensures
            final(self).child(q as int) == Some(c),
            final(self).same_but(*old(self), q as int),
    {
        if q == 0 {
            self.c0 = Some(c);
        } else if q == 1 {
            self.c1 = Some(c);
        } else if q == 2 {
            self.c2 = Some(c);
        } else {
            self.c3 = Some(c);
        }
    }

    fn has_child(&self, q: u8) -> (r: bool)
        requires
            q < 4,
        ensures
            r == self.child(q as int) is Some,
    {
        if q == 0 {
            self.c0.is_some()
        } else if q == 1 {
            self.c1.is_some()
        } else if q == 2 {
            self.c2.is_some()
        } else {
            self.c3.is_some()
        }
    }
}

/// What changes below one child changes the whole by as much.
proof fn lemma_child_changed(before: Node, after: Node, q: int)
    requires
        0 <= q < 4,
        after.same_but(before, q),
    ensures
        held(after).add(held_of(before.child(q))) == held(before).add(held_of(after.child(q))),
        after.count() + count_of(before.child(q)) == before.count() + count_of(after.child(q)),
{
    lemma_held(before);
    lemma_held(after);
    assert(held(after).add(held_of(before.child(q))) =~= held(before).add(
        held_of(after.child(q)),
    ));
}

/// A node stays well formed when a child does.
proof fn lemma_child_wf(before: Node, after: Node, q: int, cell: Rect, depth: nat)
    requires
        0 <= q < 4,
        before.wf(cell, depth),
        after.same_but(before, q),
        wf_of(after.child(q), cell, before.mx, before.my, q, depth),
    ensures
        after.wf(cell, depth),
{
}

/// How many of the first `n` items have a place in `bounds`.
pub open spec fn placed_of(items: Seq<Item>, bounds: Rect, n: int) -> nat
    decreases n,
{
    if n <= 0 {
        0
    } else {
        placed_of(items, bounds, n - 1) + if has_place(bounds, items[n - 1].1) {
            1nat
        } else {
            0nat
        }
    }
}

/// A subtree holds at least the items of its root and of each child, and a node alone
/// holds no others.
proof fn lemma_sizes(node: Node)
    ensures
        node.items@.len() <= node.all().len(),
        all_of(node.c0).len() <= node.all().len(),
        all_of(node.c1).len() <= node.all().len(),
        all_of(node.c2).len() <= node.all().len(),
        all_of(node.c3).len() <= node.all().len(),
        node.count() == 1 ==> node.c0 is None && node.c1 is None && node.c2 is None && node.c3
            is None && node.all().len() == node.items@.len(),
        node.count() >= 1,
{
    lemma_some_count(node.c0);
    lemma_some_count(node.c1);
    lemma_some_count(node.c2);
    lemma_some_count(node.c3);
    assert(node.all() == node.items@ + all_of(node.c0) + all_of(node.c1) + all_of(node.c2) + all_of(
        node.c3,
    ));
}

proof fn lemma_some_count(n: Option<Box<Node>>)
    ensures
        n is Some ==> count_of(n) >= 1,
        n is None ==> count_of(n) == 0 && all_of(n).len() == 0,
{
    match n {
        Some(node) => {
            assert(node.count() >= 1);
        },
        None => {},
    }
}

/// Indexes `id` under `bbox` in the subtree of `node`, whose cell holds it.
fn insert_node<F: Fn(Real, Real) -> Real>(
    node: &mut Node,
    cell: Rect,
    depth: u8,
    id: u32,
    bbox: Rect,
    mid: &F,
)
    requires
        depth <= MAX_DEPTH,
        old(node).wf(cell, (MAX_DEPTH - depth) as nat),
        has_place(cell, bbox),
        forall|a: Real, b: Real| mid.requires((a, b)),
    ensures
        final(node).wf(cell, (MAX_DEPTH - depth) as nat),
        held(*final(node)) == held(*old(node)).insert((id, bbox)),
        old(node).count() <= final(node).count() <= old(node).count() + 1,
        final(node).mx == old(node).mx && final(node).my == old(node).my,
        old(node).count() == 1 && old(node).items@.len() < SPLIT ==> final(node).count() == 1,
        old(node).all().len() < SPLIT ==> final(node).count() == old(node).count(),
        depth < MAX_DEPTH && old(node).count() == 1 && old(node).items@.len() >= SPLIT && quarter(
            old(node).mx,
            old(node).my,
            bbox,
        ) is Some ==> final(node).count() == 2,
    decreases MAX_DEPTH - depth,
{
    let ghost before = *node;
    proof {
        lemma_sizes(before);
    }
    let ghost d = (MAX_DEPTH - depth) as nat;
    let q: u8 = match quadrant(node.mx, node.my, bbox) {
        Some(q) => q,
        None => {
            push_item(node, id, bbox, Ghost(cell), Ghost(d));
            return;
        },
    };
    if depth == MAX_DEPTH || (!node.has_child(q) && node.items.len() < SPLIT) {
        push_item(node, id, bbox, Ghost(cell), Ghost(d));
        return;
    }
    let sub = child_rect(cell, node.mx, node.my, q);
    proof {
        a_quadrant_holds_its_boxes(cell, node.mx, node.my, bbox);
    }
    let slot = node.take_child(q);
    let ghost was = slot;
    let mut child: Box<Node> = match slot {
        Some(child) => child,
        None => Box::new(empty_node(sub, mid)),
    };
    let ghost start = *child;
    assert(wf_of(was, cell, before.mx, before.my, q as int, d));
    assert(start.wf(sub, (d - 1) as nat));
    assert(held(start) == held_of(was));
    insert_node(&mut *child, sub, depth + 1, id, bbox, mid);
    proof {
        assert forall|it: Item| #[trigger] child.all().contains(it) implies quarter(
            before.mx,
            before.my,
            it.1,
        ) == Some(q as int) && has_place(cell, it.1) by {
            lemma_contains(child.all(), it);
            lemma_contains(start.all(), it);
            if it != (id, bbox) {
                assert(start.all().contains(it));
                if was is None {
                    assert(false);
                }
            }
        }
        assert(wf_of(Some(child), cell, before.mx, before.my, q as int, d));
    }
    node.put_child(q, child);
    proof {
        lemma_child_wf(before, *node, q as int, cell, d);
        lemma_child_changed(before, *node, q as int);
        assert(held_of(node.child(q as int)) == held(*child));
        lemma_one_more(held(*node), held(before), held_of(was), (id, bbox));
        lemma_count_of_child(before, q as int);
    }
}

/// What one part gains the whole gains.
proof fn lemma_one_more(
    after: Multiset<Item>,
    before: Multiset<Item>,
    part: Multiset<Item>,
    it: Item,
)
    requires
        after.add(part) == before.add(part.insert(it)),
    ensures
        after == before.insert(it),
{
    broadcast use vstd::multiset::group_multiset_axioms;

    assert forall|v: Item| #[trigger] after.count(v) == before.insert(it).count(v) by {
        assert(after.add(part).count(v) == before.add(part.insert(it)).count(v));
        assert(after.add(part).count(v) == after.count(v) + part.count(v));
        assert(before.add(part.insert(it)).count(v) == before.count(v) + part.insert(it).count(v));
        if v == it {
            assert(Multiset::singleton(it).count(v) == 1);
        } else {
            assert(Multiset::singleton(it).count(v) == 0);
        }
    }
    assert(after =~= before.insert(it));
}

/// What one part loses the whole loses.
proof fn lemma_one_less(
    after: Multiset<Item>,
    before: Multiset<Item>,
    part: Multiset<Item>,
    it: Item,
)
    requires
        after.add(part) == before.add(part.remove(it)),
        part.count(it) > 0,
    ensures
        after == before.remove(it),
{
    broadcast use vstd::multiset::group_multiset_axioms;

    assert forall|v: Item| #[trigger] after.count(v) == before.remove(it).count(v) by {
        assert(after.add(part).count(v) == before.add(part.remove(it)).count(v));
        assert(after.add(part).count(v) == after.count(v) + part.count(v));
        assert(before.add(part.remove(it)).count(v) == before.count(v) + part.remove(it).count(v));
        if v == it {
            assert(Multiset::singleton(it).count(v) == 1);
        } else {
            assert(Multiset::singleton(it).count(v) == 0);
        }
    }
    assert(after =~= before.remove(it));
}

/// A node counts more than any of its children.
proof fn lemma_count_of_child(node: Node, q: int)
    requires
        0 <= q < 4,
    ensures
        count_of(node.child(q)) < node.count(),
        node.child(q) is Some ==> count_of(node.child(q)) >= 1,
{
}

/// Rests an item at a node.
fn push_item(node: &mut Node, id: u32, bbox: Rect, cell: Ghost<Rect>, depth: Ghost<nat>)
    requires
        old(node).wf(cell@, depth@),
    ensures
        final(node).wf(cell@, depth@),
        held(*final(node)) == held(*old(node)).insert((id, bbox)),
        final(node).count() == old(node).count(),
        final(node).mx == old(node).mx && final(node).my == old(node).my,
{
    broadcast use vstd::seq_lib::group_to_multiset_ensures;

    let ghost before = *node;
    node.items.push((id, bbox));
    proof {
        lemma_held(before);
        lemma_held(*node);
        assert(held(*node) =~= held(before).insert((id, bbox)));
    }
}

/// Where `id` is among the items, if it is.
fn position(items: &Vec<Item>, id: u32) -> (k: Option<usize>)
    ensures
        match k {
            Some(k) => k < items@.len() && items@[k as int].0 == id,
            None => forall|i: int| 0 <= i < items@.len() ==> (#[trigger] items@[i]).0 != id,
        },
{
    let mut i: usize = 0;
    while i < items.len()
        invariant
            i <= items@.len(),
            forall|j: int| 0 <= j < i ==> (#[trigger] items@[j]).0 != id,
        decreases items@.len() - i,
    {
        if items[i].0 == id {
            return Some(i);
        }
        i += 1;
    }
    None
}

/// Whether what was taken out of `before` to give `after` is an item `id`.
pub open spec fn lost(before: Multiset<Item>, after: Multiset<Item>, id: u32) -> bool {
    exists|bbox: Rect| #[trigger]
        before.count((id, bbox)) > 0 && after == before.remove((id, bbox))
}

/// Takes out the item at `k` of a node.
fn drop_item(node: &mut Node, k: usize, cell: Ghost<Rect>, depth: Ghost<nat>)
    requires
        old(node).wf(cell@, depth@),
        k < old(node).items@.len(),
    ensures
        final(node).wf(cell@, depth@),
        held(*old(node)).count(old(node).items@[k as int]) > 0,
        held(*final(node)) == held(*old(node)).remove(old(node).items@[k as int]),
        final(node).count() == old(node).count(),
        final(node).mx == old(node).mx && final(node).my == old(node).my,
{
    let ghost before = *node;
    let ghost it = node.items@[k as int];
    node.items.swap_remove(k);
    proof {
        lemma_swap_remove(before.items@, k as int, node.items@);
        lemma_held(before);
        lemma_held(*node);
        let rest = held_of(before.c0).add(held_of(before.c1)).add(held_of(before.c2)).add(
            held_of(before.c3),
        );
        lemma_contains(before.items@, it);
        assert(before.items@.contains(it));
        assert(held(before) =~= before.items@.to_multiset().add(rest));
        assert(held(*node) =~= node.items@.to_multiset().add(rest));
        lemma_part_less(before.items@.to_multiset(), rest, it);
    }
}

proof fn lemma_part_less(a: Multiset<Item>, rest: Multiset<Item>, it: Item)
    requires
        a.count(it) > 0,
    ensures
        a.add(rest).count(it) > 0,
        a.remove(it).add(rest) == a.add(rest).remove(it),
{
    broadcast use vstd::multiset::group_multiset_axioms;

    assert forall|v: Item| #[trigger]
        a.remove(it).add(rest).count(v) == a.add(rest).remove(it).count(v) by {
        assert(a.add(rest).count(v) == a.count(v) + rest.count(v));
        if v == it {
            assert(Multiset::singleton(it).count(v) == 1);
        } else {
            assert(Multiset::singleton(it).count(v) == 0);
        }
    }
    assert(a.remove(it).add(rest) =~= a.add(rest).remove(it));
}

proof fn lemma_swap_remove(before: Seq<Item>, k: int, after: Seq<Item>)
    requires
        0 <= k < before.len(),
        after == before.update(k, before.last()).drop_last(),
    ensures
        after.to_multiset() == before.to_multiset().remove(before[k]),
{
    broadcast use vstd::seq_lib::group_to_multiset_ensures;
    broadcast use vstd::multiset::group_multiset_axioms;

    let n = before.len() - 1;
    if k == n {
        assert(after =~= before.remove(k));
    } else {
        let moved = before.update(k, before.last());
        assert(after =~= moved.remove(n));
        assert(moved[n] == before[n]);
        assert(moved.to_multiset() =~= before.to_multiset().insert(before[n]).remove(before[k]));
        assert(after.to_multiset() =~= moved.to_multiset().remove(before[n]));
        assert(before.to_multiset().count(before[k]) > 0) by {
            lemma_contains(before, before[k]);
            assert(before.contains(before[k]));
        }
        assert(after.to_multiset() =~= before.to_multiset().remove(before[k]));
    }
}

/// An item of a subtree rests at the node or has its place below the child of
/// its quadrant.
proof fn lemma_where(node: Node, cell: Rect, depth: nat, it: Item)
    requires
        node.wf(cell, depth),
        held(node).count(it) > 0,
    ensures
        node.items@.contains(it) || (quarter(node.mx, node.my, it.1) matches Some(q) && 0 <= q < 4
            && has_place(cell, it.1) && held_of(node.child(q)).count(it) > 0),
{
    lemma_held(node);
    lemma_contains(node.items@, it);
    lemma_contains(all_of(node.c0), it);
    lemma_contains(all_of(node.c1), it);
    lemma_contains(all_of(node.c2), it);
    lemma_contains(all_of(node.c3), it);
    if !node.items@.contains(it) {
        if all_of(node.c0).contains(it) {
            assert(wf_of(node.c0, cell, node.mx, node.my, 0, depth));
            assert(node.c0->0.all().contains(it));
        } else if all_of(node.c1).contains(it) {
            assert(wf_of(node.c1, cell, node.mx, node.my, 1, depth));
            assert(node.c1->0.all().contains(it));
        } else if all_of(node.c2).contains(it) {
            assert(wf_of(node.c2, cell, node.mx, node.my, 2, depth));
            assert(node.c2->0.all().contains(it));
        } else {
            assert(all_of(node.c3).contains(it));
            assert(wf_of(node.c3, cell, node.mx, node.my, 3, depth));
            assert(node.c3->0.all().contains(it));
        }
    }
}

/// Removes `id`, inserted under `bbox`, from the subtree of `node`.
///
/// `descends` says whether the box has a place below the root.
fn remove_node(
    node: &mut Node,
    cell: Rect,
    id: u32,
    bbox: Rect,
    descends: bool,
    depth: Ghost<nat>,
) -> (r: bool)
    requires
        old(node).wf(cell, depth@),
        !descends ==> !has_place(cell, bbox),
    ensures
        final(node).wf(cell, depth@),
        final(node).count() == old(node).count(),
        final(node).mx == old(node).mx && final(node).my == old(node).my,
        r ==> lost(held(*old(node)), held(*final(node)), id),
        !r ==> held(*final(node)) == held(*old(node)) && held(*old(node)).count((id, bbox)) == 0,
    decreases depth@,
{
    let ghost before = *node;
    let ghost d = depth@;
    // Insertion stops at the first node that is not yet full, so the item may
    // rest at any node on this path, not only the last.
    if let Some(k) = position(&node.items, id) {
        let ghost it = node.items@[k as int];
        drop_item(node, k, Ghost(cell), Ghost(d));
        assert(lost(held(before), held(*node), id)) by {
            assert(held(before).count((id, it.1)) > 0);
        }
        return true;
    }
    proof {
        if held(before).count((id, bbox)) > 0 {
            lemma_where(before, cell, d, (id, bbox));
            if before.items@.contains((id, bbox)) {
                let i = choose|i: int|
                    0 <= i < before.items@.len() && before.items@[i] == (id, bbox);
                assert(before.items@[i].0 != id);
            }
        }
    }
    if !descends {
        return false;
    }
    let q: u8 = match quadrant(node.mx, node.my, bbox) {
        Some(q) => q,
        None => {
            return false;
        },
    };
    let sub = child_rect(cell, node.mx, node.my, q);
    let slot = node.take_child(q);
    let ghost was = slot;
    match slot {
        None => {
            proof {
                lemma_child_changed(before, *node, q as int);
                lemma_child_wf(before, *node, q as int, cell, d);
                lemma_no_change(held(*node), held(before), held_of(was));
                lemma_contains(all_of(was), (id, bbox));
            }
            false
        },
        Some(mut child) => {
            let ghost start = *child;
            assert(wf_of(was, cell, before.mx, before.my, q as int, d));
            let found = remove_node(&mut *child, sub, id, bbox, true, Ghost((d - 1) as nat));
            proof {
                assert forall|it: Item| #[trigger] child.all().contains(it) implies quarter(
                    before.mx,
                    before.my,
                    it.1,
                ) == Some(q as int) && has_place(cell, it.1) by {
                    lemma_contains(child.all(), it);
                    lemma_contains(start.all(), it);
                    lemma_lost_is_less(held(start), held(*child), id, it);
                    assert(start.all().contains(it));
                }
                assert(wf_of(Some(child), cell, before.mx, before.my, q as int, d));
            }
            node.put_child(q, child);
            proof {
                lemma_child_wf(before, *node, q as int, cell, d);
                lemma_child_changed(before, *node, q as int);
                assert(held_of(node.child(q as int)) == held(*child));
                assert(held_of(was) == held(start));
                if found {
                    let bb = choose|bb: Rect| #[trigger]
                        held(start).count((id, bb)) > 0 && held(*child) == held(start).remove(
                            (id, bb),
                        );
                    lemma_one_less(held(*node), held(before), held(start), (id, bb));
                    lemma_part_counts(before, q as int, (id, bb));
                    assert(lost(held(before), held(*node), id)) by {
                        assert(held(before).count((id, bb)) > 0);
                    }
                } else {
                    lemma_no_change(held(*node), held(before), held_of(was));
                }
            }
            found
        },
    }
}

/// What is below a child is in the whole.
proof fn lemma_part_counts(node: Node, q: int, it: Item)
    requires
        0 <= q < 4,
        held_of(node.child(q)).count(it) > 0,
    ensures
        held(node).count(it) > 0,
{
    lemma_held(node);
}

proof fn lemma_no_change(
    after: Multiset<Item>,
    before: Multiset<Item>,
    part: Multiset<Item>,
)
    requires
        after.add(part) == before.add(part),
    ensures
        after == before,
{
    assert forall|v: Item| #[trigger] after.count(v) == before.count(v) by {
        assert(after.add(part).count(v) == after.count(v) + part.count(v));
        assert(before.add(part).count(v) == before.count(v) + part.count(v));
    }
    assert(after =~= before);
}

/// What is left was there before.
proof fn lemma_lost_is_less(
    before: Multiset<Item>,
    after: Multiset<Item>,
    id: u32,
    it: Item,
)
    requires
        lost(before, after, id) || after == before,
    ensures
        after.count(it) <= before.count(it),
{
    if lost(before, after, id) {
        let bb = choose|bb: Rect| #[trigger]
            before.count((id, bb)) > 0 && after == before.remove((id, bb));
        assert(before.remove((id, bb)).count(it) <= before.count(it));
    }
}

/// Items sorted by the quadrant they lie in, and those that straddle the split.
struct Parts {
    p0: Vec<Item>,
    p1: Vec<Item>,
    p2: Vec<Item>,
    p3: Vec<Item>,
    rest: Vec<Item>,
}

/// Every item has a place in the cell, and lies in the quadrant.
spec fn in_quarter(items: Seq<Item>, cell: Rect, mx: Real, my: Real, q: int) -> bool {
    forall|it: Item| #[trigger]
        items.contains(it) ==> quarter(mx, my, it.1) == Some(q) && has_place(cell, it.1)
}

spec fn all_placed(items: Seq<Item>, cell: Rect) -> bool {
    forall|it: Item| #[trigger] items.contains(it) ==> has_place(cell, it.1)
}

impl Parts {
    spec fn held(self) -> Multiset<Item> {
        self.rest@.to_multiset().add(self.p0@.to_multiset()).add(self.p1@.to_multiset()).add(
            self.p2@.to_multiset(),
        ).add(self.p3@.to_multiset())
    }

    spec fn sorted(self, cell: Rect, mx: Real, my: Real) -> bool {
        &&& in_quarter(self.p0@, cell, mx, my, 0)
        &&& in_quarter(self.p1@, cell, mx, my, 1)
        &&& in_quarter(self.p2@, cell, mx, my, 2)
        &&& in_quarter(self.p3@, cell, mx, my, 3)
    }
}

proof fn lemma_in_quarter_push(items: Seq<Item>, it: Item, cell: Rect, mx: Real, my: Real, q: int)
    requires
        in_quarter(items, cell, mx, my, q),
        quarter(mx, my, it.1) == Some(q),
        has_place(cell, it.1),
    ensures
        in_quarter(items.push(it), cell, mx, my, q),
{
    assert forall|v: Item| #[trigger] items.push(it).contains(v) implies quarter(mx, my, v.1)
        == Some(q) && has_place(cell, v.1) by {
        let i = choose|i: int| 0 <= i < items.push(it).len() && items.push(it)[i] == v;
        if i < items.len() {
            assert(items[i] == v);
            assert(items.contains(v));
        }
    }
}

/// Sorts items by quadrant, in their order.
fn partition(items: &Vec<Item>, cell: Ghost<Rect>, mx: Real, my: Real) -> (parts: Parts)
    requires
        all_placed(items@, cell@),
    ensures
        parts.held() == items@.to_multiset(),
        parts.sorted(cell@, mx, my),
        (exists|k: int| 0 <= k < items@.len() && quarter(mx, my, (#[trigger] items@[k]).1) is Some)
            ==> parts.p0@.len() + parts.p1@.len() + parts.p2@.len() + parts.p3@.len() > 0,
{
    let ghost c = cell@;
    let mut parts = Parts {
        p0: Vec::new(),
        p1: Vec::new(),
        p2: Vec::new(),
        p3: Vec::new(),
        rest: Vec::new(),
    };
    let mut i: usize = 0;
    proof {
        broadcast use vstd::seq_lib::group_to_multiset_ensures;
        broadcast use vstd::multiset::group_multiset_axioms;

        assert(items@.take(0) =~= Seq::<Item>::empty());
        assert(parts.held() =~= items@.take(0).to_multiset());
    }
    while i < items.len()
        invariant
            i <= items@.len(),
            c == cell@,
            all_placed(items@, c),
            parts.held() == items@.take(i as int).to_multiset(),
            parts.sorted(c, mx, my),
            forall|k: int|
                0 <= k < i && quarter(mx, my, (#[trigger] items@[k]).1) is Some ==> parts.p0@.len()
                    + parts.p1@.len() + parts.p2@.len() + parts.p3@.len() > 0,
        decreases items@.len() - i,
    {
        let it = items[i];
        let ghost before = parts;
        proof {
            assert(items@.contains(it));
            assert(items@.take(i + 1) =~= items@.take(i as int).push(it));
        }
        match quadrant(mx, my, it.1) {
            None => {
                parts.rest.push(it);
            },
            Some(0) => {
                proof {
                    lemma_in_quarter_push(parts.p0@, it, c, mx, my, 0);
                }
                parts.p0.push(it);
            },
            Some(1) => {
                proof {
                    lemma_in_quarter_push(parts.p1@, it, c, mx, my, 1);
                }
                parts.p1.push(it);
            },
            Some(2) => {
                proof {
                    lemma_in_quarter_push(parts.p2@, it, c, mx, my, 2);
                }
                parts.p2.push(it);
            },
            Some(_) => {
                proof {
                    lemma_in_quarter_push(parts.p3@, it, c, mx, my, 3);
                }
                parts.p3.push(it);
            },
        }
        proof {
            broadcast use vstd::seq_lib::group_to_multiset_ensures;

            assert(parts.held() =~= before.held().insert(it));
        }
        i += 1;
    }
    assert(items@.take(i as int) =~= items@);
    parts
}

proof fn lemma_subplaced(items: Seq<Item>, cell: Rect, mx: Real, my: Real, q: int)
    requires
        0 <= q < 4,
        in_quarter(items, cell, mx, my, q),
    ensures
        all_placed(items, subcell(cell, mx, my, q)),
{
    assert forall|it: Item| #[trigger] items.contains(it) implies has_place(
        subcell(cell, mx, my, q),
        it.1,
    ) by {
        a_quadrant_holds_its_boxes(cell, mx, my, it.1);
    }
}

/// The subtree for a quadrant's items, where there are any.
fn build_child<F: Fn(Real, Real) -> Real>(
    items: Vec<Item>,
    cell: Rect,
    mx: Real,
    my: Real,
    q: u8,
    depth: u8,
    mid: &F,
) -> (c: Option<Box<Node>>)
    requires
        q < 4,
        depth < MAX_DEPTH,
        in_quarter(items@, cell, mx, my, q as int),
        forall|a: Real, b: Real| mid.requires((a, b)),
    ensures
        wf_of(c, cell, mx, my, q as int, (MAX_DEPTH - depth) as nat),
        held_of(c) == items@.to_multiset(),
        items@.len() > 0 ==> count_of(c) > 0,
    decreases MAX_DEPTH - depth, 0int,
{
    broadcast use vstd::seq_lib::group_to_multiset_ensures;

    if items.len() == 0 {
        assert(items@ =~= Seq::<Item>::empty());
        return None;
    }
    let ghost all = items@;
    let sub = child_rect(cell, mx, my, q);
    proof {
        lemma_subplaced(all, cell, mx, my, q as int);
    }
    let node = build(items, sub, depth + 1, mid);
    proof {
        assert forall|it: Item| #[trigger] node.all().contains(it) implies quarter(mx, my, it.1)
            == Some(q as int) && has_place(cell, it.1) by {
            lemma_contains(node.all(), it);
            lemma_contains(all, it);
            assert(all.contains(it));
        }
    }
    Some(Box::new(node))
}

/// The subtree for items that all have a place in `cell`.
fn build<F: Fn(Real, Real) -> Real>(items: Vec<Item>, cell: Rect, depth: u8, mid: &F) -> (node:
    Node)
    requires
        depth <= MAX_DEPTH,
        all_placed(items@, cell),
        forall|a: Real, b: Real| mid.requires((a, b)),
    ensures
        node.wf(cell, (MAX_DEPTH - depth) as nat),
        held(node) == items@.to_multiset(),
        mid.ensures((cell.x0, cell.x1), node.mx),
        mid.ensures((cell.y0, cell.y1), node.my),
        items@.len() <= SPLIT ==> node.count() == 1,
        items@.len() > SPLIT && depth < MAX_DEPTH && (exists|k: int|
            0 <= k < items@.len() && quarter(node.mx, node.my, (#[trigger] items@[k]).1) is Some)
            ==> node.count() > 1,
        node.count() >= 1,
    decreases MAX_DEPTH - depth, 1int,
{
    let mut node = empty_node(cell, mid);
    if items.len() <= SPLIT || depth == MAX_DEPTH {
        node.items = items;
        proof {
            lemma_held(node);
            reveal_with_fuel(wf_of, 2);
            assert(node.count() == 1) by {
                reveal_with_fuel(count_of, 2);
            }
            assert(held(node) =~= items@.to_multiset()) by {
                broadcast use vstd::seq_lib::group_to_multiset_ensures;
                broadcast use vstd::multiset::group_multiset_axioms;

                assert(all_of(None::<Box<Node>>) =~= Seq::<Item>::empty());
            }
        }
        return node;
    }
    let parts = partition(&items, Ghost(cell), node.mx, node.my);
    node.items = parts.rest;
    node.c0 = build_child(parts.p0, cell, node.mx, node.my, 0, depth, mid);
    node.c1 = build_child(parts.p1, cell, node.mx, node.my, 1, depth, mid);
    node.c2 = build_child(parts.p2, cell, node.mx, node.my, 2, depth, mid);
    node.c3 = build_child(parts.p3, cell, node.mx, node.my, 3, depth, mid);
    proof {
        lemma_held(node);
    }
    node
}

fn count_node(node: &Node) -> (n: usize)
    requires
        node.count() <= usize::MAX,
    ensures
        n == node.count(),
    decreases *node,
{
    proof {
        lemma_count_of_child(*node, 0);
        lemma_count_of_child(*node, 1);
        lemma_count_of_child(*node, 2);
        lemma_count_of_child(*node, 3);
    }
    let a: usize = count_child(&node.c0);
    let b: usize = count_child(&node.c1);
    let c: usize = count_child(&node.c2);
    let d: usize = count_child(&node.c3);
    1 + a + b + c + d
}

fn count_child(child: &Option<Box<Node>>) -> (n: usize)
    requires
        count_of(*child) <= usize::MAX,
    ensures
        n == count_of(*child),
    decreases *child,
{
    match child {
        Some(node) => count_node(node),
        None => 0,
    }
}

/// A spatial index of item ids keyed by document-space bounding box.
///
/// Ids are caller-chosen and opaque to the tree. `F` gives the point a side of
/// a cell is split at.
pub struct Quadtree<F: Fn(Real, Real) -> Real> {
    bounds: Rect,
    root: Node,
    mid: F,
}

impl<F: Fn(Real, Real) -> Real> View for Quadtree<F> {
    type V = Multiset<Item>;

    open spec fn view(&self) -> Multiset<Item> {
        self.order().to_multiset()
    }
}

/// Whether every item called `id` has the box `bbox`.
pub open spec fn only(items: Multiset<Item>, id: u32, bbox: Rect) -> bool {
    forall|it: Item| #[trigger] items.count(it) > 0 && it.0 == id ==> it.1 == bbox
}

impl<F: Fn(Real, Real) -> Real> Quadtree<F> {
    /// The items in the order queries meet them.
    pub closed spec fn order(&self) -> Seq<Item> {
        self.root.all()
    }

    /// The number of nodes.
    pub closed spec fn nodes(&self) -> nat {
        self.root.count()
    }

    /// The root cell.
    pub closed spec fn cell(&self) -> Rect {
        self.bounds
    }

    /// Where the root is divided.
    pub closed spec fn middle(&self) -> (Real, Real) {
        (self.root.mx, self.root.my)
    }

    /// No item lies below a node outside whose cell it reaches, and no node
    /// lies deeper than [`MAX_DEPTH`].
    pub closed spec fn wf(&self) -> bool {
        &&& self.root.wf(self.bounds, MAX_DEPTH as nat)
        &&& forall|a: Real, b: Real| self.mid.requires((a, b))
    }

    /// An empty tree covering `bounds`.
    ///
    /// `bounds` should enclose the document. Items outside it are handled
    /// correctly but not accelerated.
    pub fn new(bounds: Rect, mid: F) -> (tree: Self)
        requires
            forall|a: Real, b: Real| mid.requires((a, b)),
        ensures
            tree.wf(),
            tree@ == Multiset::<Item>::empty(),
            tree.order() == Seq::<Item>::empty(),
            tree.cell() == bounds,
            tree.nodes() == 1,
            mid.ensures((bounds.x0, bounds.x1), tree.middle().0),
            mid.ensures((bounds.y0, bounds.y1), tree.middle().1),
    {
        let root = empty_node(bounds, &mid);
        let tree = Quadtree { bounds, root, mid };
        proof {
            broadcast use vstd::seq_lib::group_to_multiset_ensures;

            assert(tree@ =~= Multiset::<Item>::empty());
        }
        tree
    }

    /// Builds a tree from all items at once.
    pub fn bulk_load(bounds: Rect, items: &[Item], mid: F) -> (tree: Self)
        requires
            forall|a: Real, b: Real| mid.requires((a, b)),
        ensures
            tree.wf(),
            tree@ == items@.to_multiset(),
            tree.cell() == bounds,
            mid.ensures((bounds.x0, bounds.x1), tree.middle().0),
            mid.ensures((bounds.y0, bounds.y1), tree.middle().1),
            placed_of(items@, bounds, items@.len() as int) <= 32 ==> tree.nodes() == 1,
            placed_of(items@, bounds, items@.len() as int) > 32 && (exists|k: int|
                0 <= k < items@.len() && has_place(bounds, (#[trigger] items@[k]).1) && quarter(
                    tree.middle().0,
                    tree.middle().1,
                    items@[k].1,
                ) is Some) ==> tree.nodes() > 1,
    {
        let mut inside: Vec<Item> = Vec::new();
        let mut outside: Vec<Item> = Vec::new();
        let mut i: usize = 0;
        proof {
            broadcast use vstd::seq_lib::group_to_multiset_ensures;
            broadcast use vstd::multiset::group_multiset_axioms;

            assert(items@.take(0) =~= Seq::<Item>::empty());
            assert(outside@.to_multiset().add(inside@.to_multiset()) =~= items@.take(
                0,
            ).to_multiset());
        }
        while i < items.len()
            invariant
                i <= items@.len(),
                all_placed(inside@, bounds),
                outside@.to_multiset().add(inside@.to_multiset()) == items@.take(
                    i as int,
                ).to_multiset(),
                inside@.len() == placed_of(items@, bounds, i as int),
                forall|k: int|
                    0 <= k < i && has_place(bounds, (#[trigger] items@[k]).1) ==> inside@.contains(
                        items@[k],
                    ),
            decreases items@.len() - i,
        {
            broadcast use vstd::seq_lib::group_to_multiset_ensures;

            let it = items[i];
            let ghost held = outside@.to_multiset().add(inside@.to_multiset());
            assert(items@.take(i + 1) =~= items@.take(i as int).push(it));
            if placeable(bounds, it.1) {
                let ghost was = inside@;
                inside.push(it);
                assert forall|k: int| 0 <= k <= i && has_place(bounds, (#[trigger] items@[k]).1)
                    implies inside@.contains(items@[k]) by {
                    if k < i {
                        let m = choose|m: int| 0 <= m < was.len() && was[m] == items@[k];
                        assert(inside@[m] == items@[k]);
                    } else {
                        assert(inside@[was.len() as int] == it);
                    }
                }
                assert forall|v: Item| #[trigger] inside@.contains(v) implies has_place(
                    bounds,
                    v.1,
                ) by {
                    let k = choose|k: int| 0 <= k < inside@.len() && inside@[k] == v;
                    if k < was.len() {
                        assert(was[k] == v);
                        assert(was.contains(v));
                    }
                }
            } else {
                outside.push(it);
            }
            assert(outside@.to_multiset().add(inside@.to_multiset()) =~= held.insert(it));
            i += 1;
        }
        assert(items@.take(i as int) =~= items@);
        let ghost sorted = inside@;
        let mut root = build(inside, bounds, 0, &mid);
        let ghost built = root;
        let ghost kept = outside@;
        outside.append(&mut root.items);
        root.items = outside;
        proof {
            lemma_held(built);
            lemma_held(root);
            assert(root.items@ =~= kept + built.items@);
            vstd::seq_lib::lemma_multiset_commutative(kept, built.items@);
            assert(held(root) =~= items@.to_multiset());
            assert(root.count() == built.count());
            if exists|k: int|
                0 <= k < items@.len() && has_place(bounds, (#[trigger] items@[k]).1) && quarter(
                    root.mx,
                    root.my,
                    items@[k].1,
                ) is Some {
                let k = choose|k: int|
                    0 <= k < items@.len() && has_place(bounds, (#[trigger] items@[k]).1) && quarter(
                        root.mx,
                        root.my,
                        items@[k].1,
                    ) is Some;
                assert(sorted.contains(items@[k]));
                let m = choose|m: int| 0 <= m < sorted.len() && sorted[m] == items@[k];
                assert(quarter(built.mx, built.my, sorted[m].1) is Some);
            }
        }
        Quadtree { bounds, root, mid }
    }

    /// Indexes `id` under `bbox`.
    ///
    /// A box that cannot be placed, one outside the bounds or a backwards one,
    /// is kept at the root, where every query sees it. Nothing is dropped, not
    /// even a box with no area. At most one node is made.
    pub fn insert(&mut self, id: u32, bbox: Rect)
        requires
            old(self).wf(),
        ensures
            final(self).wf(),
            final(self)@ == old(self)@.insert((id, bbox)),
            final(self).cell() == old(self).cell(),
            old(self).nodes() <= final(self).nodes() <= old(self).nodes() + 1,
            final(self).middle() == old(self).middle(),
            old(self).order().len() < 32 || !has_place(old(self).cell(), bbox)
                ==> final(self).nodes() == old(self).nodes(),
            old(self).nodes() == 1 && old(self).order().len() >= 32 && has_place(
                old(self).cell(),
                bbox,
            ) && quarter(old(self).middle().0, old(self).middle().1, bbox) is Some
                ==> final(self).nodes() == 2,
    {
        proof {
            lemma_sizes(self.root);
        }
        if placeable(self.bounds, bbox) {
            insert_node(&mut self.root, self.bounds, 0, id, bbox, &self.mid);
        } else {
            let ghost cell = self.bounds;
            push_item(&mut self.root, id, bbox, Ghost(cell), Ghost(MAX_DEPTH as nat));
        }
    }

    /// Removes `id`, whose bounding box must be the one it was inserted with.
    /// Returns whether it was found.
    pub fn remove(&mut self, id: u32, bbox: Rect) -> (r: bool)
        requires
            old(self).wf(),
        ensures
            final(self).wf(),
            final(self).cell() == old(self).cell(),
            final(self).nodes() == old(self).nodes(),
            r ==> lost(old(self)@, final(self)@, id),
            !r ==> final(self)@ == old(self)@ && old(self)@.count((id, bbox)) == 0,
            only(old(self)@, id, bbox) ==> r == (old(self)@.count((id, bbox)) > 0),
            only(old(self)@, id, bbox) && r ==> final(self)@ == old(self)@.remove((id, bbox)),
    {
        let descends = placeable(self.bounds, bbox);
        let ghost before = self@;
        let r = remove_node(
            &mut self.root,
            self.bounds,
            id,
            bbox,
            descends,
            Ghost(MAX_DEPTH as nat),
        );
        proof {
            if r {
                let bb = choose|bb: Rect| #[trigger]
                    before.count((id, bb)) > 0 && self@ == before.remove((id, bb));
                if only(before, id, bbox) {
                    assert((id, bb).1 == bbox);
                }
            }
        }
        r
    }

    /// Moves `id` from `old_box` to `new_box` without rebuilding the tree.
    pub fn update(&mut self, id: u32, old_box: Rect, new_box: Rect)
        requires
            old(self).wf(),
        ensures
            final(self).wf(),
            final(self).cell() == old(self).cell(),
            final(self).nodes() <= old(self).nodes() + 1,
            exists|rest: Multiset<Item>|
                {
                    &&& final(self)@ == #[trigger] rest.insert((id, new_box))
                    &&& lost(old(self)@, rest, id) || (rest == old(self)@ && old(self)@.count(
                        (id, old_box),
                    ) == 0)
                },
            only(old(self)@, id, old_box) ==> final(self)@ == old(self)@.remove(
                (id, old_box),
            ).insert((id, new_box)),
    {
        let ghost before = self@;
        let found = self.remove(id, old_box);
        let ghost rest = self@;
        self.insert(id, new_box);
        proof {
            assert(self@ == rest.insert((id, new_box)));
            if !found {
                assert(before.remove((id, old_box)) =~= before);
            }
        }
    }

    /// Appends the ids of every item whose bounding box overlaps `area`.
    pub fn query(&self, area: Rect, out: &mut Vec<u32>)
        requires
            self.wf(),
        ensures
            final(out)@ == old(out)@ + scan(self.order(), area),
    {
        query_node(&self.root, self.bounds, area, out, Ghost(MAX_DEPTH as nat));
    }

    /// How many nodes there are.
    pub fn node_count(&self) -> (n: usize)
        requires
            self.nodes() <= usize::MAX,
        ensures
            n == self.nodes(),
    {
        count_node(&self.root)
    }
}

/// Two indexes of the same items answer every query with the same ids, however
/// their trees are shaped: a query is a scan.
pub proof fn same_items_same_answers(a: Seq<Item>, b: Seq<Item>, area: Rect)
    requires
        a.to_multiset() == b.to_multiset(),
    ensures
        scan(a, area).to_multiset() == scan(b, area).to_multiset(),
    decreases a.len(),
{
    broadcast use vstd::seq_lib::group_to_multiset_ensures;

    assert(a.len() == a.to_multiset().len());
    assert(b.len() == b.to_multiset().len());
    if a.len() == 0 {
        assert(a =~= b);
    } else {
        let it = a.last();
        let front = a.drop_last();
        assert(a =~= front + seq![it]);
        lemma_contains(a, it);
        lemma_contains(b, it);
        assert(a.contains(it));
        let k = choose|k: int| 0 <= k < b.len() && b[k] == it;
        let left = b.take(k);
        let right = b.skip(k + 1);
        assert(b =~= left + seq![it] + right);
        assert(b.remove(k) =~= left + right);
        assert(a.remove(a.len() - 1) =~= front);
        same_items_same_answers(front, left + right, area);
        lemma_scan_add(front, seq![it], area);
        lemma_scan_add(left, right, area);
        lemma_scan_add(left, seq![it], area);
        lemma_scan_add(left + seq![it], right, area);
        vstd::seq_lib::lemma_multiset_commutative(scan(front, area), scan(seq![it], area));
        vstd::seq_lib::lemma_multiset_commutative(scan(left, area), scan(right, area));
        vstd::seq_lib::lemma_multiset_commutative(scan(left, area), scan(seq![it], area));
        vstd::seq_lib::lemma_multiset_commutative(
            scan(left, area) + scan(seq![it], area),
            scan(right, area),
        );
        assert(scan(a, area).to_multiset() =~= scan(b, area).to_multiset());
    }
}

/// A query answers with the items whose boxes overlap the area, each of them as
/// often as it was put in, and with nothing else.
pub proof fn a_query_finds_what_overlaps(items: Seq<Item>, area: Rect, n: int, k: int)
    requires
        0 <= n <= items.len(),
        0 <= k < n,
    ensures
        items[k].1.meets(area) ==> matching(items, area, n).contains(items[k].0),
        forall|id: u32| #[trigger]
            matching(items, area, n).contains(id) ==> exists|j: int|
                0 <= j < n && (#[trigger] items[j]).0 == id && items[j].1.meets(area),
        matching(items, area, n).len() <= n,
        (forall|j: int| 0 <= j < n ==> (#[trigger] items[j]).1.meets(area)) ==> matching(
            items,
            area,
            n,
        ).len() == n,
    decreases n,
{
    let before = matching(items, area, n - 1);
    let now = matching(items, area, n);
    if n > 1 {
        a_query_finds_what_overlaps(
            items,
            area,
            n - 1,
            if k < n - 1 {
                k
            } else {
                0
            },
        );
    }
    if items[k].1.meets(area) {
        if k < n - 1 {
            let m = choose|m: int| 0 <= m < before.len() && before[m] == items[k].0;
            assert(now[m] == items[k].0);
        } else {
            assert(now[now.len() - 1] == items[k].0);
        }
    }
    assert forall|id: u32| #[trigger] now.contains(id) implies exists|j: int|
        0 <= j < n && (#[trigger] items[j]).0 == id && items[j].1.meets(area) by {
        let m = choose|m: int| 0 <= m < now.len() && now[m] == id;
        if m < before.len() {
            assert(before[m] == id);
            assert(before.contains(id));
            let j = choose|j: int|
                0 <= j < n - 1 && (#[trigger] items[j]).0 == id && items[j].1.meets(area);
            assert(items[j].0 == id);
        } else {
            assert(items[n - 1].0 == id);
        }
    }
    if forall|j: int| 0 <= j < n ==> (#[trigger] items[j]).1.meets(area) {
        assert(items[n - 1].1.meets(area));
    }
}

/// A box goes to a quarter only where it lies on one side of both middles; one that
/// straddles a middle stays. The quarters are numbered left to right, then down.
pub proof fn a_box_goes_to_the_quarter_it_lies_in(mx: Real, my: Real, bbox: Rect)
    ensures
        bbox.x0.less(mx) && mx.less(bbox.x1) ==> quarter(mx, my, bbox) is None,
        bbox.y0.less(my) && my.less(bbox.y1) ==> quarter(mx, my, bbox) is None,
        bbox.x0.less(mx) && bbox.x1.at_most(mx) && bbox.y0.less(my) && bbox.y1.at_most(my)
            ==> quarter(mx, my, bbox) == Some(0int),
        mx.at_most(bbox.x0) && bbox.y0.less(my) && bbox.y1.at_most(my) ==> quarter(mx, my, bbox)
            == Some(1int),
        bbox.x0.less(mx) && bbox.x1.at_most(mx) && my.at_most(bbox.y0) ==> quarter(mx, my, bbox)
            == Some(2int),
        mx.at_most(bbox.x0) && my.at_most(bbox.y0) ==> quarter(mx, my, bbox) == Some(3int),
{
}

/// The quarters of a cell share its middles and keep its edges.
pub proof fn quarters_tile_their_cell(cell: Rect, mx: Real, my: Real)
    ensures
        subcell(cell, mx, my, 0) == (Rect { x0: cell.x0, y0: cell.y0, x1: mx, y1: my }),
        subcell(cell, mx, my, 1) == (Rect { x0: mx, y0: cell.y0, x1: cell.x1, y1: my }),
        subcell(cell, mx, my, 2) == (Rect { x0: cell.x0, y0: my, x1: mx, y1: cell.y1 }),
        subcell(cell, mx, my, 3) == (Rect { x0: mx, y0: my, x1: cell.x1, y1: cell.y1 }),
{
}

/// What lies inside the bounds has a place, a line or a point too. What is
/// backwards, reaches out of them or has an edge that is no number has none.
pub proof fn a_box_inside_has_a_place(bounds: Rect, bbox: Rect)
    ensures
        bounds.holds(bbox) && bbox.x0 == bbox.x1 && bbox.y0 == bbox.y1 ==> has_place(bounds, bbox),
        bounds.holds(bbox) && bbox.x0.less(bbox.x1) && bbox.y0 == bbox.y1 ==> has_place(
            bounds,
            bbox,
        ),
        bounds.holds(bbox) && bbox.x0 == bbox.x1 && bbox.y0.less(bbox.y1) ==> has_place(
            bounds,
            bbox,
        ),
        bounds.holds(bbox) && bbox.x0.less(bbox.x1) && bbox.y0.less(bbox.y1) ==> has_place(
            bounds,
            bbox,
        ),
        bbox.x1.less(bbox.x0) || bbox.y1.less(bbox.y0) ==> !has_place(bounds, bbox),
        bbox.x0.nan() || bbox.y0.nan() || bbox.x1.nan() || bbox.y1.nan() ==> !has_place(
            bounds,
            bbox,
        ),
        bbox.x0.less(bounds.x0) || bbox.y0.less(bounds.y0) || bounds.x1.less(bbox.x1)
            || bounds.y1.less(bbox.y1) ==> !has_place(bounds, bbox),
{
}

} // verus!
