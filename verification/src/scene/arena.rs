//! The scene graph store: an arena keyed by generational `u32` ids.
//!
//! Callers keep ids across frames and, inevitably, across deletions. A plain
//! index would silently address whatever was inserted into the freed slot next.
//! So an id carries the slot's generation as well as its index, and a removal
//! bumps the generation: the stale id then fails to match and [`Arena::get`]
//! returns `None`.
//!
//! # Id layout
//!
//! One `u32`: 20 low bits of index, 12 high bits of generation. A stale id held
//! across exactly 4096 reuses of one slot aliases again and is accepted.

use vstd::prelude::*;

verus! {

/// Bits of [`NodeId`] holding the slot index. The rest hold the generation.
pub const INDEX_BITS: u32 = 20;

/// Mask of the index field.
pub const INDEX_MASK: u32 = 0xf_ffff;

/// Mask of the generation field, once shifted down.
pub const GENERATION_MASK: u32 = 0xfff;

/// How many nodes can be live at once: one for every index.
pub const CAPACITY: usize = 0x10_0000;

/// A handle to a node in an [`Arena`], valid only until that node is removed.
#[derive(Clone, Copy, Debug, PartialEq, Eq, Hash, PartialOrd, Ord, Structural)]
pub struct NodeId(u32);

proof fn lemma_layout(index: u32, generation: u32)
    by (bit_vector)
    requires
        index <= 0xf_ffff,
        generation <= 0xfff,
    ensures
        ((generation << 20) | index) & 0xf_ffff == index,
        ((generation << 20) | index) >> 20 == generation,
        ((generation << 20) | index) == generation * 0x10_0000 + index,
{
}

proof fn lemma_fields(bits: u32)
    by (bit_vector)
    ensures
        bits & 0xf_ffff <= 0xf_ffff,
        bits >> 20 <= 0xfff,
        bits & 0xf_ffff == bits % 0x10_0000,
        bits >> 20 == bits / 0x10_0000,
        ((bits >> 20) << 20) | (bits & 0xf_ffff) == bits,
{
}

impl NodeId {
    /// The id's bits.
    pub closed spec fn bits(self) -> u32 {
        self.0
    }

    /// The slot the id addresses: the low twenty bits.
    pub open spec fn slot(self) -> nat {
        (self.bits() % 0x10_0000) as nat
    }

    /// The generation of that slot the id was issued for: the high twelve bits.
    pub open spec fn age(self) -> nat {
        (self.bits() / 0x10_0000) as nat
    }

    /// The id as a raw `u32`, for handing across a boundary.
    pub fn to_bits(self) -> (bits: u32)
        ensures
            bits == self.bits(),
    {
        self.0
    }

    /// An id from a raw `u32`, as it comes back.
    ///
    /// Every bit pattern is accepted: an id that was never issued is rejected
    /// as an expired one is, by [`Arena::get`] returning `None`.
    pub fn from_bits(bits: u32) -> (id: NodeId)
        ensures
            id.bits() == bits,
    {
        NodeId(bits)
    }

    /// The id of a slot in one of its generations.
    pub fn new(index: u32, generation: u32) -> (id: NodeId)
        requires
            index <= INDEX_MASK,
            generation <= GENERATION_MASK,
        ensures
            id.slot() == index,
            id.age() == generation,
    {
        proof {
            lemma_layout(index, generation);
            lemma_fields((generation << 20) | index);
        }
        NodeId((generation << INDEX_BITS) | index)
    }

    /// The slot index.
    pub fn index(self) -> (index: usize)
        ensures
            index == self.slot(),
            index <= INDEX_MASK,
    {
        proof {
            lemma_fields(self.0);
        }
        (self.0 & INDEX_MASK) as usize
    }

    /// The generation.
    pub fn generation(self) -> (generation: u32)
        ensures
            generation == self.age(),
            generation <= GENERATION_MASK,
    {
        proof {
            lemma_fields(self.0);
        }
        self.0 >> INDEX_BITS
    }
}

/// Raw bits carry an id without loss, in both directions.
pub proof fn bits_round_trip(a: NodeId, b: NodeId)
    requires
        a.bits() == b.bits(),
    ensures
        a == b,
{
}

/// An id is its slot and its generation: two that agree on both are the same.
pub proof fn an_id_is_its_slot_and_age(a: NodeId, b: NodeId)
    requires
        a.slot() == b.slot(),
        a.age() == b.age(),
    ensures
        a == b,
{
    lemma_fields(a.0);
    lemma_fields(b.0);
}

/// One slot: its current generation, and its value while it is occupied.
struct Slot<T> {
    /// Incremented on every removal, so ids issued before it stop matching.
    generation: u32,
    value: Option<T>,
}

/// A store of `T` keyed by [`NodeId`], where removal invalidates only the ids
/// of the removed node.
///
/// Slots are recycled, so the backing storage tracks the high-water mark rather
/// than growing forever.
pub struct Arena<T> {
    /// Indexed by [`NodeId::index`]. Never shrinks: a slot's generation has to
    /// outlive its value, or the ids it invalidated would come back to life.
    slots: Vec<Slot<T>>,
    /// Indices of the vacant slots, most recently freed last.
    free: Vec<u32>,
}

/// The id of slot `i` in generation `g`.
spec fn id_of(i: int, g: int) -> NodeId {
    NodeId((g * 0x10_0000 + i) as u32)
}

proof fn lemma_id_of(i: int, g: int)
    requires
        0 <= i <= INDEX_MASK,
        0 <= g <= GENERATION_MASK,
    ensures
        id_of(i, g).slot() == i,
        id_of(i, g).age() == g,
{
    let bits = g * 0x10_0000 + i;
    assert(bits % 0x10_0000 == i && bits / 0x10_0000 == g) by (nonlinear_arith)
        requires
            bits == g * 0x10_0000 + i,
            0 <= i < 0x10_0000,
    ;
}

/// The number of occupied slots among the first `n`.
spec fn occupied<T>(slots: Seq<Slot<T>>, n: int) -> nat
    decreases n,
{
    if n <= 0 {
        0
    } else if slots[n - 1].value is Some {
        occupied(slots, n - 1) + 1
    } else {
        occupied(slots, n - 1)
    }
}

/// The ids of the occupied slots among the first `n`.
spec fn live_ids<T>(slots: Seq<Slot<T>>, n: int) -> Set<NodeId>
    decreases n,
{
    if n <= 0 {
        Set::empty()
    } else if slots[n - 1].value is Some {
        live_ids(slots, n - 1).insert(id_of(n - 1, slots[n - 1].generation as int))
    } else {
        live_ids(slots, n - 1)
    }
}

spec fn generations_fit<T>(slots: Seq<Slot<T>>) -> bool {
    &&& slots.len() <= INDEX_MASK + 1
    &&& forall|i: int| 0 <= i < slots.len() ==> (#[trigger] slots[i]).generation <= GENERATION_MASK
}

proof fn lemma_live_ids<T>(slots: Seq<Slot<T>>, n: int)
    requires
        generations_fit(slots),
        0 <= n <= slots.len(),
    ensures
        live_ids(slots, n).finite(),
        live_ids(slots, n).len() == occupied(slots, n),
        forall|id: NodeId| #[trigger]
            live_ids(slots, n).contains(id) <==> id.slot() < n && slots[id.slot() as int].value is Some
                && slots[id.slot() as int].generation == id.age(),
    decreases n,
{
    if n > 0 {
        lemma_live_ids(slots, n - 1);
        let g = slots[n - 1].generation as int;
        lemma_id_of(n - 1, g);
        assert forall|id: NodeId| #[trigger]
            live_ids(slots, n).contains(id) <==> id.slot() < n && slots[id.slot() as int].value is Some
                && slots[id.slot() as int].generation == id.age() by {
            if id.slot() == n - 1 && id.age() == g {
                an_id_is_its_slot_and_age(id, id_of(n - 1, g));
            }
        }
    }
}

proof fn lemma_occupied_update<T>(slots: Seq<Slot<T>>, i: int, slot: Slot<T>, n: int)
    requires
        0 <= i < slots.len(),
        0 <= n <= slots.len(),
    ensures
        occupied(slots.update(i, slot), n) == occupied(slots, n) + (if i < n {
            (if slot.value is Some {
                1int
            } else {
                0
            }) - (if slots[i].value is Some {
                1int
            } else {
                0
            })
        } else {
            0
        }),
    decreases n,
{
    if n > 0 {
        lemma_occupied_update(slots, i, slot, n - 1);
    }
}

proof fn lemma_occupied_push<T>(slots: Seq<Slot<T>>, slot: Slot<T>, n: int)
    requires
        0 <= n <= slots.len(),
    ensures
        occupied(slots.push(slot), n) == occupied(slots, n),
    decreases n,
{
    if n > 0 {
        lemma_occupied_push(slots, slot, n - 1);
    }
}

proof fn lemma_occupied_bound<T>(slots: Seq<Slot<T>>, n: int)
    requires
        0 <= n <= slots.len(),
    ensures
        occupied(slots, n) <= n,
    decreases n,
{
    if n > 0 {
        lemma_occupied_bound(slots, n - 1);
    }
}

impl<T> View for Arena<T> {
    type V = Map<NodeId, T>;

    /// The live nodes by id.
    closed spec fn view(&self) -> Map<NodeId, T> {
        Map::new(
            |id: NodeId|
                id.slot() < self.slots@.len() && self.slots@[id.slot() as int].value is Some
                    && self.slots@[id.slot() as int].generation == id.age(),
            |id: NodeId| self.slots@[id.slot() as int].value->0,
        )
    }
}

/// What inserting `value` as `id` makes of an arena: the slot freed last is
/// taken again in the generation it is in, or a new slot is opened.
pub open spec fn inserted<T>(before: Arena<T>, after: Arena<T>, id: NodeId, value: T) -> bool {
    &&& !before@.contains_key(id)
    &&& after@ == before@.insert(id, value)
    &&& if before.vacant().len() > 0 {
        &&& id.slot() == before.vacant().last()
        &&& id.slot() < before.generations().len()
        &&& id.age() == before.generations()[id.slot() as int]
        &&& after.vacant() == before.vacant().drop_last()
        &&& after.generations() == before.generations()
    } else {
        &&& id.slot() == before.generations().len()
        &&& id.age() == 0
        &&& after.vacant() == before.vacant()
        &&& after.generations() == before.generations().push(0)
    }
}

/// What removing the live node `id` makes of an arena: its slot goes to the
/// next generation and is the first to be taken again.
pub open spec fn removed<T>(before: Arena<T>, after: Arena<T>, id: NodeId) -> bool {
    &&& id.slot() < before.generations().len()
    &&& before.generations()[id.slot() as int] == id.age()
    &&& after@ == before@.remove(id)
    &&& after.vacant() == before.vacant().push(id.slot())
    &&& after.generations() == before.generations().update(
        id.slot() as int,
        (id.age() + 1) % (GENERATION_MASK + 1) as nat,
    )
}

/// An id of another generation than its slot's is dead.
pub proof fn a_stale_id_is_dead<T>(arena: Arena<T>, id: NodeId)
    requires
        id.slot() >= arena.generations().len() || arena.generations()[id.slot() as int]
            != id.age(),
    ensures
        !arena@.contains_key(id),
{
}

/// A node's id dies with it: the node that takes over its slot gets another
/// id, and the old one still finds nothing.
pub proof fn a_stale_id_never_reaches_the_next_node<T>(
    before: Arena<T>,
    between: Arena<T>,
    after: Arena<T>,
    stale: NodeId,
    fresh: NodeId,
    value: T,
)
    requires
        removed(before, between, stale),
        inserted(between, after, fresh, value),
    ensures
        fresh.slot() == stale.slot(),
        fresh != stale,
        !between@.contains_key(stale),
        !after@.contains_key(stale),
        after@.contains_key(fresh) && after@[fresh] == value,
{
    lemma_fields(stale.0);
    assert(stale.age() <= 0xfff);
    assert((stale.age() + 1) % 0x1000 != stale.age());
    assert(between.generations()[stale.slot() as int] != stale.age());
    a_stale_id_is_dead(between, stale);
    a_stale_id_is_dead(after, stale);
}

/// Removal and insertion leave every other id alone.
pub proof fn other_ids_keep_working<T>(
    before: Arena<T>,
    between: Arena<T>,
    after: Arena<T>,
    gone: NodeId,
    fresh: NodeId,
    value: T,
    other: NodeId,
)
    requires
        removed(before, between, gone),
        inserted(between, after, fresh, value),
        other != gone,
        before@.contains_key(other),
    ensures
        between@.contains_key(other) && between@[other] == before@[other],
        after@.contains_key(other) && after@[other] == before@[other],
{
}

/// A stale id stays stale through any insertion, and through any removal but
/// the one that brings its slot round to its own generation again.
pub proof fn staleness_lasts<T>(before: Arena<T>, after: Arena<T>, stale: NodeId, other: NodeId)
    requires
        stale.slot() < before.generations().len(),
        before.generations()[stale.slot() as int] != stale.age(),
        (exists|value: T| inserted(before, after, other, value)) || (removed(before, after, other)
            && (other.slot() == stale.slot() ==> (other.age() + 1) % (GENERATION_MASK + 1) as nat
            != stale.age())),
    ensures
        stale.slot() < after.generations().len(),
        after.generations()[stale.slot() as int] != stale.age(),
        !after@.contains_key(stale),
{
}

/// Every slot of an arena is live or vacant, and there are no more slots than
/// ids can address.
pub proof fn every_slot_is_live_or_vacant<T>(arena: Arena<T>)
    requires
        arena.wf(),
    ensures
        arena@.dom().finite(),
        arena@.dom().len() + arena.vacant().len() == arena.generations().len(),
        arena.generations().len() <= CAPACITY,
{
    arena.lemma_len();
}

/// An arena is full exactly when as many nodes are live as ids can address: then
/// no slot is vacant and none can be opened. Short of that there is always one,
/// however many nodes came and went before.
pub proof fn only_live_nodes_fill_an_arena<T>(arena: Arena<T>)
    requires
        arena.wf(),
    ensures
        arena@.dom().len() < CAPACITY <==> arena.vacant().len() > 0 || arena.generations().len()
            < CAPACITY,
{
    every_slot_is_live_or_vacant(arena);
}

/// An insertion makes its value the node of its id, an id that no live node had;
/// every node that was live keeps its id and its value, and there is one node
/// more.
pub proof fn an_insertion_adds_one_node<T>(before: Arena<T>, after: Arena<T>, id: NodeId, value: T)
    requires
        before.wf(),
        inserted(before, after, id, value),
    ensures
        after@.contains_key(id) && after@[id] == value,
        !before@.contains_key(id),
        forall|other: NodeId| #[trigger]
            before@.contains_key(other) ==> other != id && after@.contains_key(other)
                && after@[other] == before@[other],
        after@.dom().len() == before@.dom().len() + 1,
{
    every_slot_is_live_or_vacant(before);
    assert(after@.dom() =~= before@.dom().insert(id));
}

/// A removal frees a slot: there is one node less, and so room for another.
pub proof fn a_removal_makes_room<T>(before: Arena<T>, after: Arena<T>, id: NodeId)
    requires
        before.wf(),
        before@.contains_key(id),
        removed(before, after, id),
    ensures
        after@.dom().len() == before@.dom().len() - 1,
        after@.dom().len() < CAPACITY,
{
    every_slot_is_live_or_vacant(before);
    assert(after@.dom() =~= before@.dom().remove(id));
}

impl<T> Arena<T> {
    /// The generation each slot is in, by slot.
    pub closed spec fn generations(self) -> Seq<nat> {
        Seq::new(self.slots@.len(), |i: int| self.slots@[i].generation as nat)
    }

    /// The vacant slots, in the order they will be reused, last one first.
    pub closed spec fn vacant(self) -> Seq<nat> {
        Seq::new(self.free@.len(), |i: int| self.free@[i] as nat)
    }

    /// What every operation keeps.
    pub closed spec fn wf(self) -> bool {
        &&& generations_fit(self.slots@)
        &&& forall|i: int|
            0 <= i < self.free@.len() ==> (#[trigger] self.free@[i]) < self.slots@.len()
                && self.slots@[self.free@[i] as int].value is None
        &&& forall|i: int, j: int|
            0 <= i < j < self.free@.len() ==> self.free@[i] != self.free@[j]
        &&& occupied(self.slots@, self.slots@.len() as int) + self.free@.len() == self.slots@.len()
    }

    /// An empty arena.
    pub fn new() -> (arena: Arena<T>)
        ensures
            arena.wf(),
            arena@ == Map::<NodeId, T>::empty(),
            arena.generations() == Seq::<nat>::empty(),
            arena.vacant() == Seq::<nat>::empty(),
    {
        let arena: Arena<T> = Arena { slots: Vec::new(), free: Vec::new() };
        assert(arena@ =~= Map::<NodeId, T>::empty());
        assert(arena.generations() =~= Seq::<nat>::empty());
        assert(arena.vacant() =~= Seq::<nat>::empty());
        arena
    }

    proof fn lemma_len(self)
        requires
            self.wf(),
        ensures
            self@.dom().finite(),
            self@.dom().len() == occupied(self.slots@, self.slots@.len() as int),
    {
        lemma_live_ids(self.slots@, self.slots@.len() as int);
        assert(self@.dom() =~= live_ids(self.slots@, self.slots@.len() as int));
    }

    /// The number of live nodes.
    pub fn len(&self) -> (n: usize)
        requires
            self.wf(),
        ensures
            n == self@.dom().len(),
            self@.dom().finite(),
    {
        proof {
            self.lemma_len();
        }
        self.slots.len() - self.free.len()
    }

    /// True when no node is live.
    pub fn is_empty(&self) -> (r: bool)
        requires
            self.wf(),
        ensures
            r == (self@ == Map::<NodeId, T>::empty()),
    {
        let n: usize = self.len();
        proof {
            if n == 0 {
                assert(self@.dom() =~= Set::empty());
                assert(self@ =~= Map::<NodeId, T>::empty());
            }
        }
        n == 0
    }

    /// Inserts `value` and returns its id: the slot freed last, or a new one.
    ///
    /// Only `2^20` slots can be addressed, so no more nodes than that can be
    /// live at once.
    pub fn insert(&mut self, value: T) -> (id: NodeId)
        requires
            old(self).wf(),
            old(self)@.dom().len() < CAPACITY,
        ensures
            final(self).wf(),
            inserted(*old(self), *final(self), id, value),
            final(self)@.dom().len() == old(self)@.dom().len() + 1,
    {
        proof {
            every_slot_is_live_or_vacant(*self);
        }
        if let Some(index) = self.free.pop() {
            let i: usize = index as usize;
            let generation: u32 = self.slots[i].generation;
            let slot = Slot { generation, value: Some(value) };
            proof {
                lemma_occupied_update(self.slots@, i as int, slot, self.slots@.len() as int);
            }
            self.slots.set(i, slot);
            let id = NodeId::new(index, generation);
            proof {
                assert forall|other: NodeId| other != id implies self@.contains_key(other) == old(self)@.contains_key(other) by {
                    if other.slot() == id.slot() && other.age() == id.age() {
                        an_id_is_its_slot_and_age(other, id);
                    }
                }
                assert(self@ =~= old(self)@.insert(id, value));
                assert(self.vacant() =~= old(self).vacant().drop_last());
                assert(self.generations() =~= old(self).generations());
                an_insertion_adds_one_node(*old(self), *self, id, value);
            }
            return id;
        }
        let index: usize = self.slots.len();
        let slot = Slot { generation: 0, value: Some(value) };
        proof {
            lemma_occupied_push(self.slots@, slot, self.slots@.len() as int);
        }
        self.slots.push(slot);
        let id = NodeId::new(index as u32, 0);
        proof {
            assert forall|other: NodeId| other != id implies self@.contains_key(other) == old(self)@.contains_key(other) by {
                if other.slot() == id.slot() && other.age() == id.age() {
                    an_id_is_its_slot_and_age(other, id);
                }
            }
            assert(self@ =~= old(self)@.insert(id, value));
            assert(self.generations() =~= old(self).generations().push(0));
            an_insertion_adds_one_node(*old(self), *self, id, value);
        }
        id
    }

    /// The node `id` refers to, or `None` if it has been removed or never
    /// existed.
    pub fn get(&self, id: NodeId) -> (r: Option<&T>)
        ensures
            match r {
                Some(v) => self@.contains_key(id) && *v == self@[id],
                None => !self@.contains_key(id),
            },
    {
        let i: usize = id.index();
        if i >= self.slots.len() || self.slots[i].generation != id.generation() {
            return None;
        }
        self.slots[i].value.as_ref()
    }

    /// Mutable access to the node `id` refers to.
    pub fn get_mut(&mut self, id: NodeId) -> (r: Option<&mut T>)
        requires
            old(self).wf(),
        ensures
            final(self).wf(),
            final(self).vacant() == old(self).vacant(),
            final(self).generations() == old(self).generations(),
            match r {
                Some(v) => old(self)@.contains_key(id) && *v == old(self)@[id] && final(self)@
                    == old(self)@.insert(id, *final(v)),
                None => !old(self)@.contains_key(id) && final(self)@ == old(self)@,
            },
    {
        let i: usize = id.index();
        if i >= self.slots.len() || self.slots[i].generation != id.generation() {
            return None;
        }
        proof {
            let slots = self.slots@;
            assert forall|slot: Slot<T>|
                slot.value is Some == slots[i as int].value is Some implies #[trigger] occupied(
                slots.update(i as int, slot),
                slots.len() as int,
            ) == occupied(slots, slots.len() as int) by {
                lemma_occupied_update(slots, i as int, slot, slots.len() as int);
            }
        }
        self.slots[i].value.as_mut()
    }

    /// Removes the node `id` refers to and returns it, or `None` if `id` is
    /// already stale.
    ///
    /// Ids of other nodes keep working: nothing moves, only this slot changes.
    pub fn remove(&mut self, id: NodeId) -> (r: Option<T>)
        requires
            old(self).wf(),
        ensures
            final(self).wf(),
            match r {
                Some(v) => old(self)@.contains_key(id) && v == old(self)@[id] && removed(
                    *old(self),
                    *final(self),
                    id,
                ),
                None => !old(self)@.contains_key(id) && final(self)@ == old(self)@ && final(self).vacant() == old(self).vacant() && final(self).generations() == old(self).generations(),
            },
    {
        let i: usize = id.index();
        if i >= self.slots.len() || self.slots[i].generation != id.generation() {
            assert(self@ =~= old(self)@.remove(id));
            return None;
        }
        let generation: u32 = self.slots[i].generation;
        // Wrap within the field rather than letting the counter carry into the
        // index bits.
        let next: u32 = (generation + 1) & GENERATION_MASK;
        assert(next == (generation + 1) % 0x1000) by (bit_vector)
            requires
                next == (generation + 1) as u32 & 0xfff,
                generation <= 0xfff,
        ;
        let taken = self.slots[i].value.take();
        match taken {
            None => {
                assert(self@ =~= old(self)@);
                assert(self@ =~= old(self)@.remove(id));
                assert(self.generations() =~= old(self).generations());
                assert(self.slots@ =~= old(self).slots@);
                None
            },
            Some(value) => {
                self.slots[i].generation = next;
                self.free.push(i as u32);
                proof {
                    let slot = self.slots@[i as int];
                    assert(self.slots@ =~= old(self).slots@.update(i as int, slot));
                    lemma_occupied_update(
                        old(self).slots@,
                        i as int,
                        slot,
                        self.slots@.len() as int,
                    );
                    assert forall|other: NodeId|
                        self@.contains_key(other) == old(self)@.remove(id).contains_key(other) by {
                        if other.slot() == id.slot() && other.age() == id.age() {
                            an_id_is_its_slot_and_age(other, id);
                        }
                    }
                    assert(self@ =~= old(self)@.remove(id));
                    assert(self.vacant() =~= old(self).vacant().push(id.slot()));
                    assert(self.generations() =~= old(self).generations().update(
                        id.slot() as int,
                        (id.age() + 1) % (GENERATION_MASK + 1) as nat,
                    ));
                }
                Some(value)
            },
        }
    }

    /// Every live node with its id, in slot order.
    ///
    /// Slot order is insertion order only until the first removal.
    pub fn iter(&self) -> (r: Vec<(NodeId, &T)>)
        requires
            self.wf(),
        ensures
            r@.len() == self@.dom().len(),
            forall|i: int, j: int|
                0 <= i < j < r@.len() ==> (#[trigger] r@[i]).0.slot() < (#[trigger] r@[j]).0.slot(),
            forall|i: int|
                0 <= i < r@.len() ==> self@.contains_key((#[trigger] r@[i]).0) && *r@[i].1
                    == self@[r@[i].0],
            forall|id: NodeId| #[trigger]
                self@.contains_key(id) ==> exists|i: int|
                    0 <= i < r@.len() && (#[trigger] r@[i]).0 == id,
    {
        let mut r: Vec<(NodeId, &T)> = Vec::new();
        let n: usize = self.slots.len();
        let mut i: usize = 0;
        while i < n
            invariant
                self.wf(),
                i <= n == self.slots@.len(),
                r@.len() == occupied(self.slots@, i as int),
                forall|k: int| 0 <= k < r@.len() ==> (#[trigger] r@[k]).0.slot() < i,
                forall|k: int, j: int|
                    0 <= k < j < r@.len() ==> (#[trigger] r@[k]).0.slot() < (
                    #[trigger] r@[j]).0.slot(),
                forall|k: int|
                    0 <= k < r@.len() ==> self@.contains_key((#[trigger] r@[k]).0) && *r@[k].1
                        == self@[r@[k].0],
                forall|id: NodeId|
                    (#[trigger] self@.contains_key(id)) && id.slot() < i ==> exists|k: int|
                        0 <= k < r@.len() && (#[trigger] r@[k]).0 == id,
            decreases n - i,
        {
            let ghost before = r@;
            match &self.slots[i].value {
                Some(value) => {
                    let id = NodeId::new(i as u32, self.slots[i].generation);
                    r.push((id, value));
                    proof {
                        assert(r@[before.len() as int].0 == id);
                        assert forall|other: NodeId|
                            (#[trigger] self@.contains_key(other)) && other.slot() < i + 1 implies exists|
                            k: int,
                        |
                            0 <= k < r@.len() && (#[trigger] r@[k]).0 == other by {
                            if other.slot() == i {
                                an_id_is_its_slot_and_age(other, id);
                            } else {
                                let k = choose|k: int|
                                    0 <= k < before.len() && (#[trigger] before[k]).0 == other;
                                assert(r@[k].0 == other);
                            }
                        }
                    }
                },
                None => {},
            }
            i += 1;
        }
        proof {
            self.lemma_len();
        }
        r
    }
}

impl<T> Default for Arena<T> {
    fn default() -> (arena: Arena<T>)
        ensures
            arena.wf(),
            arena@ == Map::<NodeId, T>::empty(),
            arena.generations() == Seq::<nat>::empty(),
            arena.vacant() == Seq::<nat>::empty(),
    {
        Arena::new()
    }
}

/// An id packs a slot of twenty bits under an age of twelve.
pub proof fn an_id_packs_slot_and_age(id: NodeId)
    ensures
        id.bits() == id.age() * 0x10_0000 + id.slot(),
        id.slot() < 0x10_0000,
        id.age() < 0x1000,
        CAPACITY == 0x10_0000,
{
}

/// The slot that was freed last is the next to be used; only where none is free
/// does the arena grow, by one slot of age zero.
pub proof fn the_last_freed_slot_is_used_first<T>(
    before: Arena<T>,
    after: Arena<T>,
    id: NodeId,
    value: T,
)
    requires
        inserted(before, after, id, value),
    ensures
        before.vacant().len() > 0 ==> id.slot() == before.vacant()[before.vacant().len() - 1]
            && after.generations().len() == before.generations().len() && after.vacant().len()
            == before.vacant().len() - 1,
        before.vacant().len() == 0 ==> id.slot() == before.generations().len() && id.age() == 0
            && after.generations().len() == before.generations().len() + 1,
{
}

/// A slot is one older after each removal, and begins again after twelve bits of
/// ages; no other slot ages.
pub proof fn a_freed_slot_ages<T>(before: Arena<T>, after: Arena<T>, id: NodeId, i: int)
    requires
        removed(before, after, id),
        0 <= i < before.generations().len(),
    ensures
        after.generations().len() == before.generations().len(),
        i != id.slot() ==> after.generations()[i] == before.generations()[i],
        id.age() < 0xfff ==> after.generations()[id.slot() as int] == id.age() + 1,
        id.age() == 0xfff ==> after.generations()[id.slot() as int] == 0,
        after.vacant().len() == before.vacant().len() + 1 && after.vacant().last() == id.slot(),
{
    assert(id.age() < 0x1000);
    let wrap = (GENERATION_MASK + 1) as nat;
    let older = (id.age() + 1) % wrap;
    assert(wrap == 0x1000);
    let slot = id.slot() as int;
    assert(before.generations().update(slot, older)[slot] == older);
    assert(older == (id.age() + 1) % 0x1000);
}

} // verus!
