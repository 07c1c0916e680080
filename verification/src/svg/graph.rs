//! The nodes of a scene: kept in an arena, and referred to by their ids.
//!
//! A node is planted after everything under it, so its children are always in
//! earlier slots than the node itself.

use vstd::prelude::*;
use crate::scene::arena;
use crate::scene::arena::Arena;
use crate::scene::arena::NodeId;
use crate::scene::arena::CAPACITY;
use super::document;
use super::document::KindModel;
use super::document::TreeModel;
use super::scene;
use super::scene::Node;
use super::scene::NodeKind;
use super::scene::Tree;
use super::scene::TreeKind;
use super::transform;
use super::xml;

verus! {

/// What hangs under a node.
pub open spec fn tree_at(nodes: Map<NodeId, Node>, id: NodeId) -> TreeModel
    decreases id.slot(), 1int, 0int,
{
    let n = nodes[id];
    TreeModel {
        kind: match n.kind {
            NodeKind::Group(ids) => KindModel::Group(
                trees_at(nodes, ids@, id.slot(), ids@.len() as int),
            ),
            NodeKind::Path(shape) => KindModel::Shape(shape@),
        },
        transform: transform::functions_view(n.transform@),
        shift: scene::shift_view(n.shift),
        style: n.style@,
        clip: xml::optional_view(n.clip_path),
    }
}

/// What hangs under the first `n` of these nodes, all in slots before `bound`.
pub open spec fn trees_at(
    nodes: Map<NodeId, Node>,
    ids: Seq<NodeId>,
    bound: nat,
    n: int,
) -> Seq<TreeModel>
    decreases bound, 0int, n,
{
    if n <= 0 || n > ids.len() {
        Seq::empty()
    } else {
        trees_at(nodes, ids, bound, n - 1).push(
            if ids[n - 1].slot() < bound {
                tree_at(nodes, ids[n - 1])
            } else {
                arbitrary()
            },
        )
    }
}

pub proof fn lemma_trees_at(nodes: Map<NodeId, Node>, ids: Seq<NodeId>, bound: nat, n: int)
    requires
        0 <= n <= ids.len(),
    ensures
        trees_at(nodes, ids, bound, n).len() == n,
        forall|k: int|
            0 <= k < n && ids[k].slot() < bound ==> #[trigger] trees_at(nodes, ids, bound, n)[k]
                == tree_at(nodes, ids[k]),
    decreases n,
{
    if n > 0 {
        lemma_trees_at(nodes, ids, bound, n - 1);
    }
}

/// Whether the children of a node are nodes in earlier slots.
pub open spec fn hangs(nodes: Map<NodeId, Node>, id: NodeId) -> bool {
    nodes[id].kind matches NodeKind::Group(ids) ==> forall|k: int|
        0 <= k < ids@.len() ==> nodes.contains_key(#[trigger] ids@[k]) && ids@[k].slot()
            < id.slot()
}

/// Whether the children of every node are nodes in earlier slots.
pub open spec fn grounded(nodes: Map<NodeId, Node>) -> bool {
    forall|id: NodeId| #[trigger] nodes.contains_key(id) ==> hangs(nodes, id)
}

/// Whether every node of one store stands in another, unchanged.
pub open spec fn stands(before: Map<NodeId, Node>, after: Map<NodeId, Node>) -> bool {
    forall|id: NodeId| #[trigger]
        before.contains_key(id) ==> after.contains_key(id) && after[id] == before[id]
}

/// Whether `id` is child `k` of a node.
pub open spec fn is_child(nodes: Map<NodeId, Node>, parent: NodeId, k: int, id: NodeId) -> bool {
    nodes.contains_key(parent) && (nodes[parent].kind matches NodeKind::Group(ids) && 0 <= k
        < ids@.len() && ids@[k] == id)
}

/// Whether no node hangs in two places.
pub open spec fn single(nodes: Map<NodeId, Node>) -> bool {
    forall|p: NodeId, k: int, q: NodeId, j: int, id: NodeId|
        #![trigger is_child(nodes, p, k, id), is_child(nodes, q, j, id)]
        is_child(nodes, p, k, id) && is_child(nodes, q, j, id) ==> p == q && k == j
}

/// Whether a node hangs nowhere.
pub open spec fn loose(nodes: Map<NodeId, Node>, id: NodeId) -> bool {
    nodes.contains_key(id) && forall|p: NodeId, k: int| !(#[trigger] is_child(nodes, p, k, id))
}

/// Whether nodes are a forest with these roots: the roots hang nowhere, and
/// every other node in one place.
pub open spec fn is_forest(nodes: Map<NodeId, Node>, roots: Seq<NodeId>) -> bool {
    &&& grounded(nodes)
    &&& single(nodes)
    &&& roots.no_duplicates()
    &&& forall|id: NodeId| #[trigger] loose(nodes, id) <==> roots.contains(id)
}

/// Whether ids are new, and the only nodes that hang nowhere and did not before.
pub open spec fn newly_loose(
    before: Map<NodeId, Node>,
    after: Map<NodeId, Node>,
    ids: Seq<NodeId>,
) -> bool {
    &&& ids.no_duplicates()
    &&& forall|k: int| 0 <= k < ids.len() ==> !before.contains_key(#[trigger] ids[k])
    &&& forall|id: NodeId| #[trigger]
        loose(after, id) <==> loose(before, id) || ids.contains(id)
}

/// Every node of a forest is a root, or a child of exactly one node.
pub proof fn a_node_has_one_parent(nodes: Map<NodeId, Node>, roots: Seq<NodeId>, id: NodeId)
    requires
        is_forest(nodes, roots),
        nodes.contains_key(id),
    ensures
        roots.contains(id) <==> !(exists|p: NodeId, k: int| #[trigger] is_child(nodes, p, k, id)),
        forall|p: NodeId, k: int, q: NodeId, j: int|
            #![trigger is_child(nodes, p, k, id), is_child(nodes, q, j, id)]
            is_child(nodes, p, k, id) && is_child(nodes, q, j, id) ==> p == q && k == j,
{
    assert(loose(nodes, id) <==> roots.contains(id));
}

/// A node planted over nodes that hung nowhere is the only one that now does.
proof fn lemma_one_more(
    before: Map<NodeId, Node>,
    mid: Map<NodeId, Node>,
    id: NodeId,
    node: Node,
    ids: Seq<NodeId>,
)
    requires
        grounded(mid),
        single(mid),
        stands(before, mid),
        newly_loose(before, mid, ids),
        !mid.contains_key(id),
        forall|k: int| 0 <= k < ids.len() ==> mid.contains_key(#[trigger] ids[k]),
        match node.kind {
            NodeKind::Group(list) => list@ == ids,
            NodeKind::Path(_) => ids.len() == 0,
        },
    ensures
        single(mid.insert(id, node)),
        newly_loose(before, mid.insert(id, node), seq![id]),
{
    let after = mid.insert(id, node);
    assert forall|p: NodeId, k: int, x: NodeId| #[trigger] is_child(after, p, k, x) implies if p
        == id {
        0 <= k < ids.len() && x == ids[k]
    } else {
        is_child(mid, p, k, x)
    } by {}
    assert forall|p: NodeId, k: int, x: NodeId| #[trigger] is_child(mid, p, k, x) implies is_child(
        after,
        p,
        k,
        x,
    ) && mid.contains_key(x) by {
        assert(hangs(mid, p));
    }
    assert forall|k: int| 0 <= k < ids.len() implies loose(mid, #[trigger] ids[k]) by {
        assert(ids.contains(ids[k]));
    }
    assert forall|p: NodeId, k: int, q: NodeId, j: int, x: NodeId|
        #![trigger is_child(after, p, k, x), is_child(after, q, j, x)]
        is_child(after, p, k, x) && is_child(after, q, j, x) implies p == q && k == j by {
        if p == id && q != id {
            assert(loose(mid, ids[k]));
            assert(is_child(mid, q, j, x));
        } else if p != id && q == id {
            assert(loose(mid, ids[j]));
            assert(is_child(mid, p, k, x));
        } else if p != id {
            assert(is_child(mid, p, k, x) && is_child(mid, q, j, x));
        }
    }
    let one = seq![id];
    assert(one.no_duplicates());
    assert(!before.contains_key(id));
    assert forall|x: NodeId| #[trigger] loose(after, x) <==> loose(before, x) || one.contains(
        x,
    ) by {
        assert(one[0] == id);
        if x == id {
            assert forall|p: NodeId, k: int| !(#[trigger] is_child(after, p, k, id)) by {
                if is_child(after, p, k, id) {
                    if p == id {
                        assert(mid.contains_key(ids[k]));
                    } else {
                        assert(is_child(mid, p, k, id));
                    }
                }
            }
        } else {
            assert(loose(mid, x) <==> loose(before, x) || ids.contains(x));
            if loose(after, x) {
                assert forall|p: NodeId, k: int| !(#[trigger] is_child(mid, p, k, x)) by {
                    if is_child(mid, p, k, x) {
                        assert(is_child(after, p, k, x));
                    }
                }
                assert(loose(mid, x));
                if ids.contains(x) {
                    let k = choose|k: int| 0 <= k < ids.len() && ids[k] == x;
                    assert(is_child(after, id, k, x));
                }
            }
            if loose(before, x) {
                assert(loose(mid, x));
                assert forall|p: NodeId, k: int| !(#[trigger] is_child(after, p, k, x)) by {
                    if is_child(after, p, k, x) {
                        if p == id {
                            assert(!before.contains_key(ids[k]));
                        } else {
                            assert(is_child(mid, p, k, x));
                        }
                    }
                }
            }
        }
    }
}

/// Planting one more tree after others.
proof fn lemma_next_root(
    before: Map<NodeId, Node>,
    mid: Map<NodeId, Node>,
    after: Map<NodeId, Node>,
    ids: Seq<NodeId>,
    id: NodeId,
)
    requires
        stands(before, mid),
        newly_loose(before, mid, ids),
        newly_loose(mid, after, seq![id]),
        forall|k: int| 0 <= k < ids.len() ==> mid.contains_key(#[trigger] ids[k]),
    ensures
        newly_loose(before, after, ids.push(id)),
{
    let more = ids.push(id);
    let one = seq![id];
    assert(one[0] == id);
    assert(!mid.contains_key(one[0]));
    assert(!before.contains_key(id));
    assert forall|i: int, j: int| 0 <= i < more.len() && 0 <= j < more.len() && i != j implies more[i]
        != more[j] by {
        if i < ids.len() {
            assert(mid.contains_key(ids[i]));
        }
        if j < ids.len() {
            assert(mid.contains_key(ids[j]));
        }
    }
    assert forall|x: NodeId| #[trigger] loose(after, x) <==> loose(before, x) || more.contains(
        x,
    ) by {
        assert(loose(mid, x) <==> loose(before, x) || ids.contains(x));
        assert(loose(after, x) <==> loose(mid, x) || one.contains(x));
        if one.contains(x) {
            assert(more[ids.len() as int] == x);
        }
        if ids.contains(x) {
            let k = choose|k: int| 0 <= k < ids.len() && ids[k] == x;
            assert(more[k] == x);
        }
        if more.contains(x) {
            let k = choose|k: int| 0 <= k < more.len() && more[k] == x;
            if k < ids.len() {
                assert(ids[k] == x);
            } else {
                assert(one[0] == x);
            }
        }
    }
}

/// More nodes change nothing about those that were there.
pub proof fn planting_keeps_what_stands(
    before: Map<NodeId, Node>,
    after: Map<NodeId, Node>,
    id: NodeId,
)
    requires
        grounded(before),
        stands(before, after),
        before.contains_key(id),
    ensures
        tree_at(after, id) == tree_at(before, id),
    decreases id.slot(),
{
    assert(after[id] == before[id]);
    assert(hangs(before, id));
    if let NodeKind::Group(ids) = before[id].kind {
        let n = ids@.len() as int;
        assert forall|k: int| 0 <= k < n implies tree_at(after, ids@[k]) == tree_at(
            before,
            #[trigger] ids@[k],
        ) by {
            planting_keeps_what_stands(before, after, ids@[k]);
        }
        lemma_trees_at(before, ids@, id.slot(), n);
        lemma_trees_at(after, ids@, id.slot(), n);
        assert forall|k: int| 0 <= k < n implies trees_at(after, ids@, id.slot(), n)[k] == trees_at(
            before,
            ids@,
            id.slot(),
            n,
        )[k] by {
            assert(ids@[k].slot() < id.slot());
        }
        assert(trees_at(after, ids@, id.slot(), n) =~= trees_at(before, ids@, id.slot(), n));
    }
}

/// How many nodes a tree has.
pub open spec fn size(t: TreeModel) -> nat
    decreases t,
{
    match t.kind {
        KindModel::Group(trees) => 1 + sizes(trees, trees.len() as int),
        KindModel::Shape(_) => 1,
    }
}

/// How many nodes the first `n` of these trees have.
pub open spec fn sizes(trees: Seq<TreeModel>, n: int) -> nat
    decreases trees, n,
{
    if n <= 0 || n > trees.len() {
        0
    } else {
        sizes(trees, n - 1) + size(trees[n - 1])
    }
}

proof fn lemma_sizes_grow(trees: Seq<TreeModel>, i: int, n: int)
    requires
        0 <= i <= n <= trees.len(),
    ensures
        sizes(trees, i) <= sizes(trees, n),
    decreases n,
{
    if i < n {
        lemma_sizes_grow(trees, i, n - 1);
    }
}

/// Whether every node has a computed style.
pub open spec fn styled(nodes: Map<NodeId, Node>) -> bool {
    forall|id: NodeId| #[trigger] nodes.contains_key(id) ==> nodes[id].style.wf()
}

/// Whether an arena holds nothing but planted nodes: no slot was ever freed.
pub open spec fn planted(a: Arena<Node>) -> bool {
    a.wf() && a.vacant().len() == 0 && grounded(a@) && single(a@) && styled(a@)
}

/// Plants a tree: everything under its root first. There is no room only where
/// the arena would have to hold more nodes than it can.
fn plant(t: Tree, nodes: &mut Arena<Node>) -> (r: Option<NodeId>)
    requires
        planted(*old(nodes)),
        document::sound(t@),
    ensures
        match r {
            Some(id) => {
                &&& planted(*final(nodes))
                &&& stands(old(nodes)@, final(nodes)@)
                &&& final(nodes)@.contains_key(id)
                &&& tree_at(final(nodes)@, id) == t@
                &&& newly_loose(old(nodes)@, final(nodes)@, seq![id])
                &&& final(nodes)@.dom().len() == old(nodes)@.dom().len() + size(t@)
            },
            None => old(nodes)@.dom().len() + size(t@) > CAPACITY,
        },
    decreases t,
{
    let ghost model = t@;
    let ghost before = nodes@;
    let kind = match t.kind {
        TreeKind::Path(shape) => NodeKind::Path(shape),
        TreeKind::Group(trees) => {
            proof {
                scene::lemma_trees_len(trees@);
            }
            match plant_all(trees, nodes) {
                None => {
                    return None;
                },
                Some(ids) => NodeKind::Group(ids),
            }
        },
    };
    if nodes.len() >= CAPACITY {
        return None;
    }
    let ghost mid = *nodes;
    let node = Node {
        kind,
        transform: t.transform,
        shift: t.shift,
        style: t.style,
        clip_path: t.clip_path,
    };
    let id = nodes.insert(node);
    proof {
        let after = nodes@;
        arena::an_insertion_adds_one_node(mid, *nodes, id, node);
        assert(after == mid@.insert(id, node));
        let inner = match after[id].kind {
            NodeKind::Group(ids) => ids@,
            NodeKind::Path(_) => Seq::empty(),
        };
        lemma_one_more(before, mid@, id, node, inner);
        assert(stands(mid@, after));
        assert forall|other: NodeId| mid@.contains_key(other) implies other.slot()
            < id.slot() by {
            if other.slot() >= mid.generations().len() {
                arena::a_stale_id_is_dead(mid, other);
            }
        }
        assert forall|other: NodeId| #[trigger] after.contains_key(other) implies hangs(
            after,
            other,
        ) by {
            if other != id {
                assert(mid@.contains_key(other));
                assert(hangs(mid@, other));
                assert(after[other] == mid@[other]);
            }
        }
        if let NodeKind::Group(ids) = after[id].kind {
            let n = ids@.len() as int;
            lemma_trees_at(after, ids@, id.slot(), n);
            assert forall|k: int| 0 <= k < n implies trees_at(after, ids@, id.slot(), n)[k]
                == tree_at(mid@, ids@[k]) by {
                planting_keeps_what_stands(mid@, after, ids@[k]);
            }
            assert(trees_at(after, ids@, id.slot(), n) =~= model.kind->Group_0);
        }
        assert(after[id] == node);
        assert(tree_at(after, id) == model);
    }
    Some(id)
}

/// Plants trees, one after the other.
pub fn plant_all(trees: Vec<Tree>, nodes: &mut Arena<Node>) -> (r: Option<Vec<NodeId>>)
    requires
        planted(*old(nodes)),
        document::all_sound(scene::trees_view(trees@), trees@.len() as int),
    ensures
        match r {
            Some(ids) => {
                let all = scene::trees_view(trees@);
                &&& planted(*final(nodes))
                &&& stands(old(nodes)@, final(nodes)@)
                &&& ids@.len() == all.len()
                &&& forall|k: int|
                    0 <= k < all.len() ==> final(nodes)@.contains_key(#[trigger] ids@[k])
                        && tree_at(final(nodes)@, ids@[k]) == all[k]
                &&& newly_loose(old(nodes)@, final(nodes)@, ids@)
                &&& final(nodes)@.dom().len() == old(nodes)@.dom().len() + sizes(
                    all,
                    all.len() as int,
                )
            },
            None => old(nodes)@.dom().len() + sizes(
                scene::trees_view(trees@),
                trees@.len() as int,
            ) > CAPACITY,
        },
    decreases trees,
{
    let ghost list = trees@;
    let ghost all = scene::trees_view(list);
    let ghost before = nodes@;
    let mut rest = trees;
    let mut ids: Vec<NodeId> = Vec::new();
    let ghost mut done: int = 0;
    proof {
        scene::lemma_trees_len(list);
        assert(list.skip(0) =~= list);
    }
    while rest.len() > 0
        invariant
            list == trees@,
            all == scene::trees_view(list),
            document::all_sound(all, list.len() as int),
            all.len() == list.len(),
            0 <= done <= list.len(),
            rest@ == list.skip(done),
            before == old(nodes)@,
            planted(*nodes),
            stands(before, nodes@),
            ids@.len() == done,
            forall|k: int|
                0 <= k < done ==> nodes@.contains_key(#[trigger] ids@[k]) && tree_at(
                    nodes@,
                    ids@[k],
                ) == all[k],
            newly_loose(before, nodes@, ids@),
            nodes@.dom().len() == before.dom().len() + sizes(all, done),
        decreases rest.len(),
    {
        let t = rest.remove(0);
        let ghost mid = nodes@;
        proof {
            assert(t == list[done]);
            scene::lemma_trees_index(list, done);
            document::lemma_all_sound(all, list.len() as int, done);
            assert(decreases_to!(trees => trees@[done]));
            assert(rest@ =~= list.skip(done + 1));
            lemma_sizes_grow(all, done + 1, all.len() as int);
        }
        let ghost earlier = ids@;
        match plant(t, nodes) {
            None => {
                return None;
            },
            Some(id) => {
                ids.push(id);
                proof {
                    assert forall|k: int| 0 <= k < earlier.len() implies mid.contains_key(
                        #[trigger] earlier[k],
                    ) by {
                        assert(earlier[k] == ids@[k]);
                    }
                    lemma_next_root(before, mid, nodes@, earlier, id);
                    assert forall|k: int| 0 <= k < done + 1 implies nodes@.contains_key(
                        #[trigger] ids@[k],
                    ) && tree_at(nodes@, ids@[k]) == all[k] by {
                        if k < done {
                            assert(mid.contains_key(ids@[k]));
                            planting_keeps_what_stands(mid, nodes@, ids@[k]);
                        }
                    }
                    done = done + 1;
                }
            },
        }
    }
    Some(ids)
}

} // verus!
