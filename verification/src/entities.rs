//! The entity allocator: generational slots, a free list and reservations.

use crate::entity::Entity;
use vstd::prelude::*;

verus! {

/// Where the components of a live entity are stored.
#[derive(Clone, Copy, Debug, PartialEq, Eq, Structural)]
pub struct Location {
    /// Index of the archetype in the store's list.
    pub archetype: usize,
    /// Row of the entity in that archetype.
    pub row: usize,
}

/// The handle was not valid: its slot is dead or has another generation.
#[derive(Clone, Copy, Debug, PartialEq, Eq, Structural)]
pub struct NoSuchEntity {}

#[derive(Clone, Copy)]
enum SlotState {
    /// The slot belongs to a live entity stored at the location.
    Live(Location),
    /// The slot is dead and waits on the free list.
    Free,
    /// The slot has used up its generations and is never issued again.
    Retired,
}

#[derive(Clone, Copy)]
struct Slot {
    generation: u32,
    state: SlotState,
}

/// Allocates entity handles.
///
/// Every id that was ever issued has a slot, which holds the current generation
/// of the id and, while an entity lives in it, where that entity is stored. Ids
/// of dead slots wait on a free list and are issued again, most recently freed
/// first, under a higher generation. Reservations hand out the ids just past
/// the last slot; their slots are created by flushing.
pub struct Entities {
    slots: Vec<Slot>,
    free: Vec<u32>,
    pending: u32,
    len: u32,
}

impl Entities {
    /// The number of slots.
    pub closed spec fn slot_count(&self) -> nat {
        self.slots@.len()
    }

    /// The number of reservations that are not flushed yet.
    pub closed spec fn pending(&self) -> nat {
        self.pending as nat
    }

    /// The current generation of slot `id`; 0 where the slot does not exist.
    pub closed spec fn generation_of(&self, id: u32) -> u32 {
        if id < self.slots@.len() {
            self.slots@[id as int].generation
        } else {
            0
        }
    }

    /// Where the entity in slot `id` is stored, or `None` when the slot is dead
    /// or does not exist.
    pub closed spec fn location_of(&self, id: u32) -> Option<Location> {
        if id < self.slots@.len() {
            match self.slots@[id as int].state {
                SlotState::Live(location) => Some(location),
                _ => None,
            }
        } else {
            None
        }
    }

    /// The ids on the free list. The last one is issued next.
    pub closed spec fn free_ids(&self) -> Seq<u32> {
        self.free@
    }

    /// The number of live entities.
    pub closed spec fn count(&self) -> nat {
        self.len as nat
    }

    /// The handle is valid: its slot is live and has the handle's generation.
    pub open spec fn is_live(&self, e: Entity) -> bool {
        &&& self.location_of(e.id) is Some
        &&& self.generation_of(e.id) == e.generation
    }

    /// The valid handles.
    pub open spec fn live_set(&self) -> Set<Entity> {
        Set::new(|e: Entity| self.is_live(e))
    }

    /// The handle was reserved and is not flushed yet.
    pub open spec fn is_reserved(&self, e: Entity) -> bool {
        &&& self.slot_count() <= e.id < self.slot_count() + self.pending()
        &&& e.generation == 0
    }

    /// The handle that the next allocation returns, where nothing is reserved.
    pub open spec fn next(&self) -> Entity {
        if self.free_ids().len() > 0 {
            Entity { id: self.free_ids().last(), generation: self.generation_of(self.free_ids().last()) }
        } else {
            Entity { id: self.slot_count() as u32, generation: 0 }
        }
    }

    /// One more entity can be allocated or reserved.
    pub open spec fn has_room(&self) -> bool {
        self.free_ids().len() > 0 || self.slot_count() + self.pending() < u32::MAX
    }

    /// The ids from `from` up to `to`, in rising order.
    pub open spec fn id_range(from: int, to: int) -> Seq<u32> {
        Seq::new(
            if to > from {
                (to - from) as nat
            } else {
                0
            },
            |k: int| (from + k) as u32,
        )
    }

    /// The ids below `upto` whose slots are live and have a generation left, in
    /// rising order: the ids that join the free list when every entity ends.
    pub open spec fn freed_upto(&self, upto: int) -> Seq<u32>
        decreases upto,
    {
        if upto <= 0 {
            Seq::empty()
        } else if self.location_of((upto - 1) as u32) is Some && self.generation_of(
            (upto - 1) as u32,
        ) < u32::MAX {
            self.freed_upto(upto - 1).push((upto - 1) as u32)
        } else {
            self.freed_upto(upto - 1)
        }
    }

    /// The allocator's invariant.
    pub closed spec fn wf(&self) -> bool {
        &&& self.slots@.len() + self.pending <= u32::MAX
        &&& self.free@.no_duplicates()
        &&& forall|i: int|
            0 <= i < self.free@.len() ==> (#[trigger] self.free@[i]) < self.slots@.len()
                && self.slots@[self.free@[i] as int].state is Free
        &&& forall|id: int|
            0 <= id < self.slots@.len() && (#[trigger] self.slots@[id]).state is Free
                ==> self.free@.contains(id as u32)
        &&& self.live_set().finite()
        &&& self.live_set().len() == self.len
    }

    /// What the invariant says of the free list and of the ids in use.
    pub proof fn lemma_wf(&self)
        requires
            self.wf(),
        ensures
            self.slot_count() + self.pending() <= u32::MAX,
            self.free_ids().no_duplicates(),
            forall|i: int|
                0 <= i < self.free_ids().len() ==> (#[trigger] self.free_ids()[i])
                    < self.slot_count() && self.location_of(self.free_ids()[i]) is None,
            forall|id: u32| self.location_of(id) is Some ==> id < self.slot_count(),
            self.live_set().finite(),
            self.live_set().len() == self.count(),
            !self.is_live(Entity::dangling()),
            forall|e: Entity| !(self.is_live(e) && self.is_reserved(e)),
    {
    }

    /// There are no more valid handles than slots: no slot has two.
    proof fn lemma_count_bound(&self)
        requires
            self.live_set().finite(),
        ensures
            self.live_set().len() <= self.slots@.len(),
    {
        let f = |e: Entity| e.id as int;
        let ids = self.live_set().map(f);
        assert(vstd::relations::injective_on(f, self.live_set()));
        vstd::set_lib::lemma_map_size(self.live_set(), ids, f);
        let range = vstd::set_lib::set_int_range(0, self.slots@.len() as int);
        assert(ids.subset_of(range)) by {
            assert forall|i: int| ids.contains(i) implies range.contains(i) by {
                let e = choose|e: Entity| self.live_set().contains(e) && f(e) == i;
                assert(self.is_live(e));
            }
        }
        vstd::set_lib::lemma_int_range(0, self.slots@.len() as int);
        vstd::set_lib::lemma_len_subset(ids, range);
    }

    /// An allocator without slots.
    pub fn new() -> (entities: Entities)
        ensures
            entities.wf(),
            entities.slot_count() == 0,
            entities.pending() == 0,
            entities.count() == 0,
            entities.free_ids() == Seq::<u32>::empty(),
    {
        let entities = Entities { slots: Vec::new(), free: Vec::new(), pending: 0, len: 0 };
        assert(entities.live_set() =~= Set::<Entity>::empty());
        entities
    }

    /// The number of live entities.
    pub fn len(&self) -> (n: u32)
        ensures
            n == self.count(),
    {
        self.len
    }

    /// The number of slots, which is the id of the oldest reservation.
    pub fn slots(&self) -> (n: u32)
        requires
            self.wf(),
        ensures
            n == self.slot_count(),
    {
        self.slots.len() as u32
    }

    /// Whether one more entity can be allocated: an id is free, or not every id
    /// was issued.
    pub fn can_allocate(&self) -> (b: bool)
        requires
            self.wf(),
        ensures
            b == self.has_room(),
    {
        self.free.len() > 0 || self.slots.len() + (self.pending as usize) < u32::MAX as usize
    }

    /// The number of free ids.
    pub fn free_count(&self) -> (n: usize)
        ensures
            n == self.free_ids().len(),
    {
        self.free.len()
    }

    /// The number of reservations that are not flushed yet.
    pub fn pending_count(&self) -> (n: u32)
        ensures
            n == self.pending(),
    {
        self.pending
    }

    /// Whether `e` is valid.
    pub fn contains(&self, e: Entity) -> (b: bool)
        ensures
            b == self.is_live(e),
    {
        if (e.id as usize) < self.slots.len() {
            let slot = self.slots[e.id as usize];
            match slot.state {
                SlotState::Live(_) => slot.generation == e.generation,
                _ => false,
            }
        } else {
            false
        }
    }

    /// Where `e` is stored, or the error when `e` is not valid.
    pub fn get(&self, e: Entity) -> (r: Result<Location, NoSuchEntity>)
        ensures
            r is Ok <==> self.is_live(e),
            r matches Ok(location) ==> self.location_of(e.id) == Some(location),
    {
        if (e.id as usize) < self.slots.len() {
            let slot = self.slots[e.id as usize];
            match slot.state {
                SlotState::Live(location) => {
                    if slot.generation == e.generation {
                        Ok(location)
                    } else {
                        Err(NoSuchEntity {  })
                    }
                },
                _ => Err(NoSuchEntity {  }),
            }
        } else {
            Err(NoSuchEntity {  })
        }
    }

    /// The handle of the live entity in slot `id`, if the slot is live.
    pub fn occupant(&self, id: u32) -> (o: Option<Entity>)
        ensures
            o is Some <==> self.location_of(id) is Some,
            o matches Some(e) ==> e.id == id && e.generation == self.generation_of(id)
                && self.is_live(e),
    {
        if (id as usize) < self.slots.len() {
            let slot = self.slots[id as usize];
            match slot.state {
                SlotState::Live(_) => Some(Entity { id, generation: slot.generation }),
                _ => None,
            }
        } else {
            None
        }
    }

    /// The handle of the live entity in slot `id`.
    pub fn resolve(&self, id: u32) -> (e: Entity)
        requires
            self.location_of(id) is Some,
        ensures
            e.id == id,
            e.generation == self.generation_of(id),
            self.is_live(e),
    {
        Entity { id, generation: self.slots[id as usize].generation }
    }

    /// Records that the live entity in slot `id` is now stored at `location`.
    pub fn set_location(&mut self, id: u32, location: Location)
        requires
            old(self).wf(),
            old(self).location_of(id) is Some,
        ensures
            final(self).wf(),
            final(self).location_of(id) == Some(location),
            final(self).slot_count() == old(self).slot_count(),
            final(self).pending() == old(self).pending(),
            final(self).count() == old(self).count(),
            final(self).free_ids() == old(self).free_ids(),
            forall|other: u32| final(self).generation_of(other) == old(self).generation_of(other),
            forall|other: u32|
                other != id ==> final(self).location_of(other) == old(self).location_of(other),
    {
        let generation = self.slots[id as usize].generation;
        self.slots[id as usize] = Slot { generation, state: SlotState::Live(location) };
        proof {
            assert(self.live_set() =~= old(self).live_set());
        }
    }

    /// Issues a handle for an entity stored at `location`: the id on top of the
    /// free list under its current generation, or a new id under generation 0.
    pub fn allocate(&mut self, location: Location) -> (e: Entity)
        requires
            old(self).wf(),
            old(self).pending() == 0,
            old(self).has_room(),
        ensures
            final(self).wf(),
            e == old(self).next(),
            !old(self).is_live(e),
            old(self).location_of(e.id) is None,
            final(self).is_live(e),
            final(self).location_of(e.id) == Some(location),
            final(self).pending() == 0,
            final(self).count() == old(self).count() + 1,
            final(self).live_set() == old(self).live_set().insert(e),
            old(self).free_ids().len() > 0 ==> final(self).free_ids() == old(self).free_ids().drop_last() && final(self).slot_count() == old(self).slot_count(),
            old(self).free_ids().len() == 0 ==> final(self).free_ids() == old(self).free_ids()
                && final(self).slot_count() == old(self).slot_count() + 1,
            forall|other: u32|
                other != e.id ==> final(self).location_of(other) == old(self).location_of(other),
            forall|other: u32| final(self).generation_of(other) == old(self).generation_of(other),
    {
        let e = match self.free.pop() {
            Some(id) => {
                proof {
                    let i = old(self).free@.len() - 1;
                    assert(old(self).free@[i] == id);
                    assert(self.free@ =~= old(self).free@.drop_last());
                    assert forall|other: int|
                        0 <= other < self.slots@.len() && other != id && (
                        #[trigger] self.slots@[other]).state is Free implies self.free@.contains(
                        other as u32,
                    ) by {
                        assert(old(self).free@.contains(other as u32));
                        let k = choose|k: int|
                            0 <= k < old(self).free@.len() && old(self).free@[k] == other as u32;
                        assert(self.free@[k] == other as u32);
                    }
                    assert forall|k: int| 0 <= k < self.free@.len() implies (
                    #[trigger] self.free@[k]) != id by {
                        assert(old(self).free@[k] != old(self).free@[i]);
                    }
                }
                let generation = self.slots[id as usize].generation;
                self.slots[id as usize] = Slot { generation, state: SlotState::Live(location) };
                Entity { id, generation }
            },
            None => {
                let id = self.slots.len() as u32;
                self.slots.push(Slot { generation: 0, state: SlotState::Live(location) });
                Entity { id, generation: 0 }
            },
        };
        let ghost changed = *self;
        proof {
            assert(self.live_set() =~= old(self).live_set().insert(e));
            self.lemma_count_bound();
        }
        self.len = self.len + 1;
        proof {
            assert(self.live_set() =~= changed.live_set());
        }
        e
    }

    /// Makes `e` the valid handle of its slot, for an entity stored at
    /// `location`, whatever the slot held before. Slots are created up to the
    /// one of `e` where they do not exist yet; those below it join the free
    /// list. Returns where the slot's previous entity was stored, if it had one.
    pub fn alloc_at(&mut self, e: Entity, location: Location) -> (previous: Option<Location>)
        requires
            old(self).wf(),
            old(self).pending() == 0,
            e.id < u32::MAX,
        ensures
            final(self).wf(),
            previous == old(self).location_of(e.id),
            final(self).is_live(e),
            final(self).location_of(e.id) == Some(location),
            final(self).pending() == 0,
            final(self).slot_count() == if e.id < old(self).slot_count() {
                old(self).slot_count()
            } else {
                (e.id + 1) as nat
            },
            final(self).count() == old(self).count() + if previous is Some {
                0int
            } else {
                1int
            },
            forall|other: Entity|
                other.id != e.id ==> final(self).is_live(other) == old(self).is_live(other),
            forall|other: Entity|
                other.id == e.id ==> final(self).is_live(other) == (other == e),
            forall|other: u32|
                other != e.id ==> final(self).location_of(other) == old(self).location_of(other),
            forall|other: u32|
                other != e.id ==> final(self).generation_of(other) == old(self).generation_of(other),
            final(self).generation_of(e.id) == e.generation,
            final(self).free_ids() == if e.id >= old(self).slot_count() {
                old(self).free_ids() + Self::id_range(old(self).slot_count() as int, e.id as int)
            } else if old(self).free_ids().contains(e.id) {
                old(self).free_ids().remove(old(self).free_ids().index_of(e.id))
            } else {
                old(self).free_ids()
            },
    {
        let ghost before = *self;
        let previous = if (e.id as usize) >= self.slots.len() {
            let mut next: u32 = self.slots.len() as u32;
            proof {
                assert(self.free@ =~= before.free@ + Self::id_range(
                    before.slots@.len() as int,
                    next as int,
                ));
            }
            while next < e.id
                invariant
                    self.wf(),
                    self.pending == 0,
                    next == self.slots@.len(),
                    next <= e.id < u32::MAX,
                    self.len == before.len,
                    self.free@ == before.free@ + Self::id_range(before.slots@.len() as int, next as int),
                    forall|other: u32|
                        before.slots@.len() <= other < self.slots@.len() ==> self.slots@[other as int].generation == 0,
                    before.slots@.len() <= self.slots@.len(),
                    self.live_set() == before.live_set(),
                    forall|other: u32|
                        other < before.slots@.len() ==> self.slots@[other as int]
                            == before.slots@[other as int],
                    forall|other: u32|
                        before.slots@.len() <= other < self.slots@.len() ==> self.slots@[other as int].state is Free,
                decreases e.id - next,
            {
                let ghost prior = *self;
                self.slots.push(Slot { generation: 0, state: SlotState::Free });
                self.free.push(next);
                proof {
                    assert forall|i: int, j: int|
                        0 <= i < self.free@.len() && 0 <= j < self.free@.len() && i
                            != j implies self.free@[i] != self.free@[j] by {
                        if i < prior.free@.len() {
                            assert(prior.free@[i] < prior.slots@.len());
                        }
                        if j < prior.free@.len() {
                            assert(prior.free@[j] < prior.slots@.len());
                        }
                    }
                    assert forall|id: int|
                        0 <= id < self.slots@.len() && (
                        #[trigger] self.slots@[id]).state is Free implies self.free@.contains(
                        id as u32,
                    ) by {
                        if id < prior.slots@.len() {
                            assert(prior.slots@[id].state is Free);
                            assert(prior.free@.contains(id as u32));
                            let k = choose|k: int|
                                0 <= k < prior.free@.len() && prior.free@[k] == id as u32;
                            assert(self.free@[k] == id as u32);
                        } else {
                            assert(self.free@[self.free@.len() - 1] == id as u32);
                        }
                    }
                    assert(self.live_set() =~= prior.live_set());
                    assert(self.free@ =~= before.free@ + Self::id_range(
                        before.slots@.len() as int,
                        next + 1,
                    ));
                }
                next = next + 1;
            }
            self.slots.push(Slot { generation: e.generation, state: SlotState::Live(location) });
            proof {
                let prior = before;
                assert forall|id: int|
                    0 <= id < self.slots@.len() && (
                    #[trigger] self.slots@[id]).state is Free implies self.free@.contains(
                    id as u32,
                ) by {}
            }
            None
        } else {
            let slot = self.slots[e.id as usize];
            self.slots[e.id as usize] = Slot {
                generation: e.generation,
                state: SlotState::Live(location),
            };
            proof {
                if !(slot.state is Free) && before.free@.contains(e.id) {
                    let i = choose|i: int| 0 <= i < before.free@.len() && before.free@[i] == e.id;
                    assert(before.slots@[before.free@[i] as int].state is Free);
                }
            }
            match slot.state {
                SlotState::Live(previous) => Some(previous),
                SlotState::Free => {
                    let mut k: usize = 0;
                    proof {
                        assert(before.slots@[e.id as int].state is Free);
                        assert(before.free@.contains(e.id));
                    }
                    let ghost at = choose|j: int| 0 <= j < before.free@.len() && before.free@[j] == e.id;
                    while k < self.free.len() && self.free[k] != e.id
                        invariant
                            self.free@ == before.free@,
                            0 <= k <= at < self.free@.len(),
                            self.free@[at] == e.id,
                        decreases self.free@.len() - k,
                    {
                        k = k + 1;
                    }
                    self.free.remove(k);
                    proof {
                        assert(before.free@.index_of(e.id) == k) by {
                            let i = before.free@.index_of(e.id);
                            assert(before.free@.contains(e.id));
                            assert(0 <= i < before.free@.len() && before.free@[i] == e.id);
                            if i != k {
                                assert(before.free@[i] != before.free@[k as int]);
                            }
                        }
                        assert(self.free@ =~= before.free@.remove(k as int));
                        assert forall|i: int, j: int|
                            0 <= i < self.free@.len() && 0 <= j < self.free@.len() && i
                                != j implies self.free@[i] != self.free@[j] by {
                            let a = if i < k { i } else { i + 1 };
                            let b = if j < k { j } else { j + 1 };
                            assert(before.free@[a] != before.free@[b]);
                        }
                        assert forall|i: int| 0 <= i < self.free@.len() implies (
                        #[trigger] self.free@[i]) != e.id by {
                            let a = if i < k { i } else { i + 1 };
                            assert(before.free@[a] != before.free@[k as int]);
                        }
                        assert forall|i: int| 0 <= i < self.free@.len() implies (
                        #[trigger] self.free@[i]) < self.slots@.len()
                            && self.slots@[self.free@[i] as int].state is Free by {
                            let a = if i < k { i } else { i + 1 };
                            assert(before.free@[a] < before.slots@.len());
                        }
                        assert forall|id: int|
                            0 <= id < self.slots@.len() && (
                            #[trigger] self.slots@[id]).state is Free implies self.free@.contains(
                            id as u32,
                        ) by {
                            assert(before.slots@[id].state is Free);
                            assert(before.free@.contains(id as u32));
                            let j = choose|j: int|
                                0 <= j < before.free@.len() && before.free@[j] == id as u32;
                            let a = if j < k { j } else { j - 1 };
                            assert(self.free@[a] == id as u32);
                        }
                    }
                    None
                },
                SlotState::Retired => None,
            }
        };
        proof {
            if previous is Some {
                let was = Entity { id: e.id, generation: before.generation_of(e.id) };
                assert(before.live_set().contains(was));
                assert(self.live_set() =~= before.live_set().remove(was).insert(e));
            } else {
                assert(self.live_set() =~= before.live_set().insert(e));
            }
            self.lemma_count_bound();
        }
        let ghost changed = *self;
        if previous.is_none() {
            self.len = self.len + 1;
        }
        proof {
            assert(self.live_set() =~= changed.live_set());
        }
        previous
    }

    fn release(&mut self, id: u32)
        requires
            old(self).wf(),
            old(self).location_of(id) is Some,
        ensures
            final(self).wf(),
            final(self).location_of(id) is None,
            final(self).slot_count() == old(self).slot_count(),
            final(self).pending() == old(self).pending(),
            final(self).count() == old(self).count() - 1,
            final(self).generation_of(id) == if old(self).generation_of(id) < u32::MAX {
                (old(self).generation_of(id) + 1) as u32
            } else {
                old(self).generation_of(id)
            },
            final(self).free_ids() == if old(self).generation_of(id) < u32::MAX {
                old(self).free_ids().push(id)
            } else {
                old(self).free_ids()
            },
            final(self).live_set() == old(self).live_set().remove(
                Entity { id, generation: old(self).generation_of(id) },
            ),
            forall|other: u32|
                other != id ==> final(self).location_of(other) == old(self).location_of(other)
                    && final(self).generation_of(other) == old(self).generation_of(other),
    {
        let generation = self.slots[id as usize].generation;
        if generation < u32::MAX {
            self.slots[id as usize] = Slot { generation: generation + 1, state: SlotState::Free };
            self.free.push(id);
            proof {
                assert forall|i: int, j: int|
                    0 <= i < self.free@.len() && 0 <= j < self.free@.len() && i
                        != j implies self.free@[i] != self.free@[j] by {
                    if i < old(self).free@.len() {
                        assert(old(self).slots@[old(self).free@[i] as int].state is Free);
                    }
                    if j < old(self).free@.len() {
                        assert(old(self).slots@[old(self).free@[j] as int].state is Free);
                    }
                }
                assert forall|other: int|
                    0 <= other < self.slots@.len() && (
                    #[trigger] self.slots@[other]).state is Free implies self.free@.contains(
                    other as u32,
                ) by {
                    if other != id {
                        assert(old(self).free@.contains(other as u32));
                        let k = choose|k: int|
                            0 <= k < old(self).free@.len() && old(self).free@[k] == other as u32;
                        assert(self.free@[k] == other as u32);
                    } else {
                        assert(self.free@[self.free@.len() - 1] == id);
                    }
                }
            }
        } else {
            self.slots[id as usize] = Slot { generation, state: SlotState::Retired };
        }
        proof {
            let was = Entity { id, generation: old(self).generation_of(id) };
            assert(old(self).live_set().contains(was));
            assert(self.live_set() =~= old(self).live_set().remove(was));
        }
        let ghost changed = *self;
        self.len = self.len - 1;
        proof {
            assert(self.live_set() =~= changed.live_set());
        }
    }

    /// Ends the life of `e`: its slot moves on to the next generation and joins
    /// the free list, or is retired when it has no generation left. Returns
    /// where the entity was stored, or the error, with nothing changed, when `e`
    /// is not valid.
    pub fn free(&mut self, e: Entity) -> (r: Result<Location, NoSuchEntity>)
        requires
            old(self).wf(),
        ensures
            final(self).wf(),
            r is Ok <==> old(self).is_live(e),
            r is Err ==> *final(self) == *old(self),
            r matches Ok(location) ==> {
                &&& old(self).location_of(e.id) == Some(location)
                &&& final(self).location_of(e.id) is None
                &&& final(self).slot_count() == old(self).slot_count()
                &&& final(self).pending() == old(self).pending()
                &&& final(self).count() == old(self).count() - 1
                &&& final(self).live_set() == old(self).live_set().remove(e)
                &&& final(self).generation_of(e.id) == if e.generation < u32::MAX {
                    (e.generation + 1) as u32
                } else {
                    e.generation
                }
                &&& final(self).free_ids() == if e.generation < u32::MAX {
                    old(self).free_ids().push(e.id)
                } else {
                    old(self).free_ids()
                }
                &&& forall|other: u32|
                    other != e.id ==> final(self).location_of(other) == old(self).location_of(other)
                        && final(self).generation_of(other) == old(self).generation_of(other)
            },
    {
        match self.get(e) {
            Ok(location) => {
                self.release(e.id);
                Ok(location)
            },
            Err(error) => Err(error),
        }
    }

    /// Reserves a handle: the id just past the slots and the earlier
    /// reservations, under generation 0. The handle becomes valid when it is
    /// flushed.
    pub fn reserve(&mut self) -> (e: Entity)
        requires
            old(self).wf(),
            old(self).slot_count() + old(self).pending() < u32::MAX,
        ensures
            final(self).wf(),
            e == (Entity { id: (old(self).slot_count() + old(self).pending()) as u32, generation: 0 }),
            final(self).is_reserved(e),
            !old(self).is_reserved(e),
            !final(self).is_live(e),
            final(self).pending() == old(self).pending() + 1,
            final(self).slot_count() == old(self).slot_count(),
            final(self).count() == old(self).count(),
            final(self).free_ids() == old(self).free_ids(),
            forall|other: u32|
                final(self).location_of(other) == old(self).location_of(other)
                    && final(self).generation_of(other) == old(self).generation_of(other),
    {
        let id = self.slots.len() as u32 + self.pending;
        self.pending = self.pending + 1;
        proof {
            assert(self.live_set() =~= old(self).live_set());
        }
        Entity { id, generation: 0 }
    }

    /// Creates the slot of the oldest reservation, for an entity stored at
    /// `location`, and returns the handle that was reserved.
    pub fn flush_one(&mut self, location: Location) -> (e: Entity)
        requires
            old(self).wf(),
            old(self).pending() > 0,
        ensures
            final(self).wf(),
            e == (Entity { id: old(self).slot_count() as u32, generation: 0 }),
            old(self).is_reserved(e),
            final(self).is_live(e),
            final(self).location_of(e.id) == Some(location),
            final(self).pending() == old(self).pending() - 1,
            final(self).slot_count() == old(self).slot_count() + 1,
            final(self).count() == old(self).count() + 1,
            final(self).free_ids() == old(self).free_ids(),
            final(self).live_set() == old(self).live_set().insert(e),
            forall|other: u32|
                other != e.id ==> final(self).location_of(other) == old(self).location_of(other),
            forall|other: u32| final(self).generation_of(other) == old(self).generation_of(other),
    {
        let id = self.slots.len() as u32;
        self.slots.push(Slot { generation: 0, state: SlotState::Live(location) });
        self.pending = self.pending - 1;
        let e = Entity { id, generation: 0 };
        proof {
            assert(self.live_set() =~= old(self).live_set().insert(e));
            self.lemma_count_bound();
        }
        let ghost changed = *self;
        self.len = self.len + 1;
        proof {
            assert(self.live_set() =~= changed.live_set());
        }
        e
    }

    /// Ends the life of every entity, as `free` does for one, and gives up the
    /// reservations: their ids get slots that are dead from the start.
    pub fn clear(&mut self)
        requires
            old(self).wf(),
        ensures
            final(self).wf(),
            final(self).count() == 0,
            final(self).pending() == 0,
            final(self).slot_count() == old(self).slot_count() + old(self).pending(),
            forall|e: Entity| !final(self).is_live(e),
            forall|e: Entity| !final(self).is_reserved(e),
            forall|id: u32| final(self).location_of(id) is None,
            forall|id: u32|
                id < old(self).slot_count() ==> final(self).generation_of(id) == if old(self).location_of(id) is Some && old(self).generation_of(id) < u32::MAX {
                    (old(self).generation_of(id) + 1) as u32
                } else {
                    old(self).generation_of(id)
                },
            forall|id: u32|
                old(self).slot_count() <= id < final(self).slot_count() ==> final(self).generation_of(id) == 1,
            final(self).free_ids() == old(self).free_ids() + old(self).freed_upto(
                old(self).slot_count() as int,
            ) + Self::id_range(
                old(self).slot_count() as int,
                (old(self).slot_count() + old(self).pending()) as int,
            ),
    {
        let mut id: u32 = 0;
        let n: u32 = self.slots.len() as u32;
        while id < n
            invariant
                self.wf(),
                id <= n,
                n == self.slots@.len(),
                n == old(self).slots@.len(),
                self.pending == old(self).pending,
                self.free@ == old(self).free@ + old(self).freed_upto(id as int),
                forall|other: u32| other < id ==> self.location_of(other) is None,
                forall|other: u32|
                    id <= other < n ==> self.location_of(other) == old(self).location_of(other)
                        && self.generation_of(other) == old(self).generation_of(other),
                forall|other: u32|
                    other < id ==> self.generation_of(other) == if old(self).location_of(other)
                        is Some && old(self).generation_of(other) < u32::MAX {
                        (old(self).generation_of(other) + 1) as u32
                    } else {
                        old(self).generation_of(other)
                    },
            decreases n - id,
        {
            let slot = self.slots[id as usize];
            let ghost prior = *self;
            proof {
                assert(prior.location_of(id) == old(self).location_of(id));
                assert(prior.generation_of(id) == old(self).generation_of(id));
            }
            match slot.state {
                SlotState::Live(_) => {
                    self.release(id);
                },
                _ => {},
            }
            proof {
                assert(self.free@ =~= old(self).free@ + old(self).freed_upto(id + 1));
            }
            id = id + 1;
        }
        let ghost freed = self.free@;
        proof {
            assert(self.free@ =~= freed + Self::id_range(
                old(self).slots@.len() as int,
                self.slots@.len() as int,
            ));
        }
        while self.pending > 0
            invariant
                self.wf(),
                self.slots@.len() + self.pending == old(self).slots@.len() + old(self).pending,
                old(self).slots@.len() <= self.slots@.len(),
                freed == old(self).free@ + old(self).freed_upto(old(self).slots@.len() as int),
                self.free@ == freed + Self::id_range(
                    old(self).slots@.len() as int,
                    self.slots@.len() as int,
                ),
                forall|other: u32| self.location_of(other) is None,
                forall|other: u32|
                    other < old(self).slots@.len() ==> self.generation_of(other) == if old(self).location_of(other) is Some && old(self).generation_of(other) < u32::MAX {
                        (old(self).generation_of(other) + 1) as u32
                    } else {
                        old(self).generation_of(other)
                    },
                forall|other: u32|
                    old(self).slots@.len() <= other < self.slots@.len() ==> self.generation_of(
                        other,
                    ) == 1,
            decreases self.pending,
        {
            let ghost prior = *self;
            let next = self.slots.len() as u32;
            self.slots.push(Slot { generation: 1, state: SlotState::Free });
            self.free.push(next);
            self.pending = self.pending - 1;
            proof {
                assert forall|i: int, j: int|
                    0 <= i < self.free@.len() && 0 <= j < self.free@.len() && i
                        != j implies self.free@[i] != self.free@[j] by {
                    if i < prior.free@.len() {
                        assert(prior.free@[i] < prior.slots@.len());
                    }
                    if j < prior.free@.len() {
                        assert(prior.free@[j] < prior.slots@.len());
                    }
                }
                assert forall|other: int|
                    0 <= other < self.slots@.len() && (
                    #[trigger] self.slots@[other]).state is Free implies self.free@.contains(
                    other as u32,
                ) by {
                    if other < prior.slots@.len() {
                        assert(prior.slots@[other].state is Free);
                        assert(prior.free@.contains(other as u32));
                        let k = choose|k: int|
                            0 <= k < prior.free@.len() && prior.free@[k] == other as u32;
                        assert(self.free@[k] == other as u32);
                    } else {
                        assert(self.free@[self.free@.len() - 1] == other as u32);
                    }
                }
                assert(self.live_set() =~= prior.live_set());
                assert(self.free@ =~= freed + Self::id_range(
                    old(self).slots@.len() as int,
                    self.slots@.len() as int,
                ));
                assert forall|other: u32| self.location_of(other) is None by {
                    assert(prior.location_of(other) is None);
                }
                assert forall|other: u32|
                    other < old(self).slots@.len() implies self.generation_of(other) == if old(self).location_of(other) is Some && old(self).generation_of(other) < u32::MAX {
                        (old(self).generation_of(other) + 1) as u32
                    } else {
                        old(self).generation_of(other)
                    } by {
                    assert(self.generation_of(other) == prior.generation_of(other));
                }
                assert forall|other: u32|
                    old(self).slots@.len() <= other < self.slots@.len() implies self.generation_of(
                        other,
                    ) == 1 by {
                    if other < prior.slots@.len() {
                        assert(self.generation_of(other) == prior.generation_of(other));
                    }
                }
            }
        }
        proof {
            assert(self.live_set() =~= Set::<Entity>::empty());
        }
    }
}

} // verus!
