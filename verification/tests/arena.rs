//! The node arena and its ids.

use hane::scene::arena::{Arena, CAPACITY, GENERATION_MASK, INDEX_BITS, INDEX_MASK, NodeId};

/// A small deterministic generator for the randomised cases.
struct Rng(u64);

impl Rng {
    fn below(&mut self, bound: u64) -> u64 {
        self.0 ^= self.0 << 13;
        self.0 ^= self.0 >> 7;
        self.0 ^= self.0 << 17;
        (self.0 >> 11) % bound
    }
}

#[test]
fn insert_get_remove_iterate() {
    let mut arena = Arena::new();
    let a = arena.insert("a");
    let b = arena.insert("b");
    assert_eq!(arena.len(), 2);
    assert_eq!(arena.get(a), Some(&"a"));
    *arena.get_mut(b).unwrap() = "B";

    let mut seen: Vec<_> = arena.iter().into_iter().map(|(id, v)| (id, *v)).collect();
    seen.sort_unstable();
    assert_eq!(seen, vec![(a, "a"), (b, "B")]);

    assert_eq!(arena.remove(a), Some("a"));
    assert_eq!(arena.remove(a), None);
    assert!(arena.get(a).is_none());
    assert_eq!(arena.len(), 1);
    assert_eq!(arena.iter().len(), 1);
}

#[test]
fn a_stale_id_never_reaches_the_node_that_replaced_it() {
    let mut arena = Arena::new();
    let stale = arena.insert(1);
    assert_eq!(arena.remove(stale), Some(1));
    // Same slot, so an index-only id would hit `fresh` here.
    let fresh = arena.insert(2);
    assert_eq!(stale.to_bits() & INDEX_MASK, fresh.to_bits() & INDEX_MASK);
    assert_eq!(arena.get(stale), None);
    assert_eq!(arena.get_mut(stale), None);
    assert_eq!(arena.remove(stale), None);
    assert_eq!(arena.get(fresh), Some(&2));
}

#[test]
fn removal_leaves_other_ids_alone() {
    let mut arena = Arena::new();
    let ids: Vec<_> = (0..64).map(|i| arena.insert(i)).collect();
    for (i, id) in ids.iter().enumerate().step_by(2) {
        assert_eq!(arena.remove(*id), Some(i32::try_from(i).unwrap()));
    }
    for (i, id) in ids.iter().enumerate() {
        let expected = i32::try_from(i).unwrap();
        assert_eq!(arena.get(*id), (i % 2 == 1).then_some(&expected));
    }
}

#[test]
fn the_generation_counter_wraps_without_overflowing_into_the_index() {
    let mut arena = Arena::new();
    let mut id = arena.insert(0);
    // One full cycle of the generation field plus a few, on one slot.
    for i in 1..=GENERATION_MASK + 4 {
        assert!(arena.remove(id).is_some());
        id = arena.insert(i);
        assert_eq!(id.index(), 0, "generation carried into the index bits");
        assert_eq!(arena.get(id), Some(&i));
    }
    assert_eq!(arena.len(), 1);
}

#[test]
fn ids_survive_a_round_trip_through_raw_bits() {
    let mut arena = Arena::new();
    arena.insert(0);
    let id = arena.insert(7);
    assert_eq!(arena.get(NodeId::from_bits(id.to_bits())), Some(&7));
    // Whatever else comes in is rejected rather than believed: a slot that
    // does not exist, and a live slot with the wrong generation.
    assert_eq!(arena.get(NodeId::from_bits(u32::MAX)), None);
    assert_eq!(
        arena.get(NodeId::from_bits(id.to_bits() + (1 << INDEX_BITS))),
        None
    );
}

/// Random insert/remove/get against a shadow list of what should be live.
///
/// Every id ever handed out is re-checked every iteration, so a recycled slot
/// that accepts an expired id fails here even if the accepting sequence is a
/// hundred operations long.
#[test]
fn no_expired_id_is_ever_accepted() {
    let mut rng = Rng(0x5ce4e);
    let mut arena = Arena::new();
    let mut live: Vec<(NodeId, u64)> = Vec::new();
    let mut dead: Vec<NodeId> = Vec::new();

    for step in 0..4_000u64 {
        // Capped so the arena hovers around 64 nodes: a small slot pool is
        // what makes reuse, and therefore aliasing, likely.
        if live.is_empty() || (live.len() < 64 && rng.below(2) > 0) {
            live.push((arena.insert(step), step));
        } else {
            let i = rng.below(live.len() as u64) as usize;
            let (id, value) = live.swap_remove(i);
            assert_eq!(arena.remove(id), Some(value));
            dead.push(id);
        }
        assert_eq!(arena.len(), live.len());
        for (id, value) in &live {
            assert_eq!(arena.get(*id), Some(value));
        }
        for id in &dead {
            assert_eq!(arena.get(*id), None, "expired id accepted at step {step}");
        }
    }
}

#[test]
fn an_empty_arena_is_empty() {
    let mut arena: Arena<u8> = Arena::default();
    assert!(arena.is_empty());
    let id = arena.insert(3);
    assert!(!arena.is_empty());
    assert_eq!((id.index(), id.generation()), (0, 0));
    arena.remove(id);
    assert!(arena.is_empty());
    assert!(arena.iter().is_empty());
    let next = arena.insert(4);
    assert_eq!((next.index(), next.generation()), (0, 1));
}

#[test]
fn only_live_nodes_count_towards_the_limit() {
    let mut arena = Arena::new();
    let first = arena.insert(0u32);
    while arena.len() < CAPACITY {
        arena.insert(1);
    }
    // Full: a node has to go before another comes, any number of times.
    for k in 0..10 {
        let (id, _) = arena.iter()[k];
        assert!(arena.remove(id).is_some());
        assert_eq!(arena.len(), CAPACITY - 1);
        let fresh = arena.insert(2);
        assert_eq!(fresh.index(), id.index());
        assert_ne!(fresh, id);
        assert_eq!(arena.get(fresh), Some(&2));
        assert_eq!(arena.len(), CAPACITY);
    }
    assert_eq!(arena.get(first), None);
}
