//! The entity directory: a generational slab that maps each live entity
//! handle to the archetype and row where its components lie.

use vstd::prelude::*;
use crate::archetype::ArchetypeID;

verus! {

/// An entity handle: in its low 22 bits the index of a directory slot, in
/// its high 10 bits the generation of that slot at the time of creation.
pub type Entity = u32;

/// The number of slots that a handle can address.
pub const SLOT_LIMIT: u32 = 0x40_0000;

/// The last generation that a handle can carry.
pub const MAX_GENERATION: u32 = 0x3ff;

/// The slot that `e` addresses.
pub open spec fn entity_index(e: Entity) -> int {
    (e % SLOT_LIMIT) as int
}

/// The generation that `e` carries.
pub open spec fn entity_generation(e: Entity) -> int {
    (e / SLOT_LIMIT) as int
}

/// Where the components of an entity lie.
#[derive(Clone, Copy, Debug, PartialEq, Eq, Structural)]
pub struct EntityRecord {
    pub archetype_id: ArchetypeID,
    pub archetype_row: usize,
}

impl Default for EntityRecord {
    fn default() -> (r: Self)
        ensures
            r == (EntityRecord { archetype_id: 0, archetype_row: 0 }),
    {
        EntityRecord { archetype_id: 0, archetype_row: 0 }
    }
}

struct Slot {
    /// The generation of the handle that the slot holds or will hold next;
    /// one past `MAX_GENERATION` once the slot is used up.
    generation: u32,
    live: bool,
    record: EntityRecord,
}

/// The directory of entities.
///
/// Its view maps each live handle to its record. A slot is reused after a
/// delete, under the next generation, until its generations are used up: no
/// handle is ever issued twice.
pub struct EntityManager {
    slots: Vec<Slot>,
    /// The dead slots that can be reused, each once.
    free: Vec<u32>,
}

impl View for EntityManager {
    type V = Map<Entity, EntityRecord>;

    closed spec fn view(&self) -> Map<Entity, EntityRecord> {
        Map::new(|e: Entity| self.live_at(e), |e: Entity| self.slots[entity_index(e)].record)
    }
}

impl EntityManager {
    spec fn live_at(&self, e: Entity) -> bool {
        &&& entity_index(e) < self.slots.len()
        &&& self.slots[entity_index(e)].live
        &&& self.slots[entity_index(e)].generation == entity_generation(e)
    }

    /// The representation invariant.
    pub closed spec fn wf(&self) -> bool {
        &&& self.slots.len() <= SLOT_LIMIT
        &&& forall|i: int|
            0 <= i < self.slots.len() ==> (#[trigger] self.slots[i]).generation <= MAX_GENERATION + 1
                && (self.slots[i].live ==> self.slots[i].generation <= MAX_GENERATION)
        &&& forall|k: int|
            0 <= k < self.free.len() ==> (#[trigger] self.free[k]) < self.slots.len()
                && !self.slots[self.free[k] as int].live && self.slots[self.free[k] as int].generation
                <= MAX_GENERATION
        &&& self.free@.no_duplicates()
    }

    /// Whether `e` was alive once and has been deleted since.
    pub closed spec fn spent(&self, e: Entity) -> bool {
        entity_index(e) < self.slots.len() && entity_generation(e)
            < self.slots[entity_index(e)].generation
    }

    /// Whether no further entity can be created.
    pub closed spec fn is_full(&self) -> bool {
        self.free.len() == 0 && self.slots.len() >= SLOT_LIMIT
    }

    /// A deleted entity is not alive.
    pub proof fn lemma_spent_not_alive(&self, e: Entity)
        requires
            self.spent(e),
        ensures
            !self@.contains_key(e),
    {
    }

    /// A directory without entities.
    pub fn new() -> (r: Self)
        ensures
            r.wf(),
            r@ == Map::<Entity, EntityRecord>::empty(),
            forall|e: Entity| !r.spent(e),
            !r.is_full(),
    {
        let r = EntityManager { slots: Vec::with_capacity(32), free: Vec::new() };
        assert(r@ =~= Map::<Entity, EntityRecord>::empty());
        r
    }

    /// Whether `create` would fail.
    pub fn full(&self) -> (r: bool)
        ensures
            r == self.is_full(),
    {
        self.free.len() == 0 && self.slots.len() >= SLOT_LIMIT as usize
    }

    /// Creates an entity with the default record, under a handle that was
    /// never issued before. Fails only when every slot is in use or used up.
    pub fn create(&mut self) -> (r: Option<Entity>)
        requires
            old(self).wf(),
        ensures
            final(self).wf(),
            forall|e: Entity| old(self).spent(e) ==> final(self).spent(e),
            match r {
                Some(e) => {
                    &&& !old(self).is_full()
                    &&& !old(self)@.contains_key(e)
                    &&& !old(self).spent(e)
                    &&& !final(self).spent(e)
                    &&& final(self)@ == old(self)@.insert(
                        e,
                        EntityRecord { archetype_id: 0, archetype_row: 0 },
                    )
                },
                None => old(self).is_full() && final(self)@ == old(self)@,
            },
    {
        if self.free.len() > 0 {
            let ghost k = self.free.len() - 1;
            let i = self.free.pop().unwrap();
            assert(i == old(self).free[k]);
            let generation = self.slots[i as usize].generation;
            self.slots[i as usize] = Slot { generation, live: true, record: EntityRecord::default() };
            let e: u32 = generation * SLOT_LIMIT + i;
            proof {
                assert(entity_index(e) == i && entity_generation(e) == generation);
                assert forall|j: int| 0 <= j < self.free.len() implies (#[trigger] self.free[j])
                    < self.slots.len() && !self.slots[self.free[j] as int].live
                    && self.slots[self.free[j] as int].generation <= MAX_GENERATION by {
                    assert(self.free[j] == old(self).free[j]);
                    assert(old(self).free[j] != old(self).free[k]);
                }
                assert(self@ =~= old(self)@.insert(
                    e,
                    EntityRecord { archetype_id: 0, archetype_row: 0 },
                ));
            }
            Some(e)
        } else if self.slots.len() < SLOT_LIMIT as usize {
            let i = self.slots.len() as u32;
            self.slots.push(Slot { generation: 0, live: true, record: EntityRecord::default() });
            proof {
                assert(entity_index(i) == i && entity_generation(i) == 0);
                assert(self@ =~= old(self)@.insert(
                    i,
                    EntityRecord { archetype_id: 0, archetype_row: 0 },
                ));
            }
            Some(i)
        } else {
            None
        }
    }

    /// Whether `entity` is alive.
    pub fn alive(&self, entity: Entity) -> (r: bool)
        requires
            self.wf(),
        ensures
            r == self@.contains_key(entity),
    {
        let i = (entity % SLOT_LIMIT) as usize;
        i < self.slots.len() && self.slots[i].live && self.slots[i].generation == entity
            / SLOT_LIMIT
    }

    /// The record of a live entity.
    pub fn get_record(&self, entity: Entity) -> (r: &EntityRecord)
        requires
            self.wf(),
            self@.contains_key(entity),
        ensures
            *r == self@[entity],
    {
        &self.slots[(entity % SLOT_LIMIT) as usize].record
    }

    /// Replaces the record of a live entity.
    pub fn set_record(&mut self, entity: Entity, record: EntityRecord)
        requires
            old(self).wf(),
            old(self)@.contains_key(entity),
        ensures
            final(self).wf(),
            final(self)@ == old(self)@.insert(entity, record),
            forall|e: Entity| old(self).spent(e) == final(self).spent(e),
            final(self).is_full() == old(self).is_full(),
    {
        let i = (entity % SLOT_LIMIT) as usize;
        let generation = self.slots[i].generation;
        self.slots[i] = Slot { generation, live: true, record };
        assert(self@ =~= old(self)@.insert(entity, record));
    }

    /// Deletes `entity` if it is alive; its handle is never alive again.
    pub fn delete(&mut self, entity: Entity)
        requires
            old(self).wf(),
        ensures
            final(self).wf(),
            final(self)@ == old(self)@.remove(entity),
            forall|e: Entity| old(self).spent(e) ==> final(self).spent(e),
            old(self)@.contains_key(entity) ==> final(self).spent(entity),
    {
        let i = (entity % SLOT_LIMIT) as usize;
        if i < self.slots.len() && self.slots[i].live && self.slots[i].generation == entity
            / SLOT_LIMIT {
            let generation = self.slots[i].generation + 1;
            let record = self.slots[i].record;
            self.slots[i] = Slot { generation, live: false, record };
            if generation <= MAX_GENERATION {
                proof {
                    if old(self).free@.contains(i as u32) {
                        let k = choose|k: int|
                            0 <= k < old(self).free.len() && old(self).free[k] == i as u32;
                        assert(!old(self).slots[old(self).free[k] as int].live);
                    }
                }
                self.free.push(i as u32);
            }
        }
        assert(self@ =~= old(self)@.remove(entity));
    }
}

} // verus!
