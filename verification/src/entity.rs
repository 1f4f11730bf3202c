//! The entity allocator: generational entity keys, slot reuse through a free
//! list, and a reserve-now-insert-later protocol for deferred spawning.
//!
//! Every slot carries a generation.  `remove` bumps the slot's generation,
//! so the removed key can never be accepted again; `insert` on a reused slot
//! bumps it once more, so the fresh key is strictly newer than every key the
//! slot ever had.  A slot whose generation comes close to `u32::MAX` is
//! retired instead of reused, so generations never wrap.

use vstd::prelude::*;
use crate::component::ArchetypeId;

verus! {

#[derive(Eq, PartialEq, Structural, Clone, Copy, Hash, Debug)]
pub struct EntityId(pub u32);

/// Opaque handle to one entity slot: index plus the generation the slot had
/// when the handle was issued.
#[derive(Eq, PartialEq, Structural, Clone, Copy, Hash, Debug)]
pub struct EntityKey {
    pub id: u32,
    pub generation: u32,
}

impl EntityKey {
    pub fn new(id: u32, generation: u32) -> (r: Self)
        ensures
            r == (EntityKey { id, generation }),
    {
        Self { id, generation }
    }

    pub fn get_id(&self) -> (r: u32)
        ensures
            r == self.id,
    {
        self.id
    }

    pub fn get_generation(&self) -> (r: u32)
        ensures
            r == self.generation,
    {
        self.generation
    }
}

/// Where one entity's component data lives: which archetype's table, and at
/// which row.
#[derive(Eq, PartialEq, Structural, Clone, Copy, Hash, Debug)]
pub struct Entity {
    pub archetype_id: ArchetypeId,
    pub row_id: u32,
}

/// One allocator slot.
pub struct Slot {
    pub entity: Option<Entity>,
    pub generation: u32,
}

/// The allocator: slots, the free list (LIFO), and the barrier past the end
/// of the slot vector from which brand-new indices are handed out by
/// `reserve` until `update_with_barriers` grows the vector to match.
pub struct Entities {
    vec: Vec<Slot>,
    empty_indices: Vec<u32>,
    free_indices_barrier: u32,
}

impl Entities {
    pub closed spec fn slots(self) -> Seq<Slot> {
        self.vec@
    }

    pub open spec fn slot_count(self) -> nat {
        self.slots().len()
    }

    pub open spec fn gen_of(self, i: int) -> u32 {
        self.slots()[i].generation
    }

    pub closed spec fn free_list(self) -> Seq<u32> {
        self.empty_indices@
    }

    pub closed spec fn barrier(self) -> u32 {
        self.free_indices_barrier
    }

    /// Free-list entries are distinct in-range indices of empty slots whose
    /// generation can still be bumped twice; occupied slots can be bumped
    /// once.  Slots nearing the end of the generation space are retired
    /// rather than reused, so a stale key can never become valid again.
    pub open spec fn wf(self) -> bool {
        &&& forall|k: int|
            0 <= k < self.free_list().len() ==> {
                &&& #[trigger] self.free_list()[k] < self.slot_count()
                &&& self.slots()[self.free_list()[k] as int].entity is None
                &&& self.gen_of(self.free_list()[k] as int) <= u32::MAX - 2
            }
        &&& forall|k1: int, k2: int|
            0 <= k1 < k2 < self.free_list().len() ==> self.free_list()[k1] != self.free_list()[k2]
        &&& forall|i: int|
            0 <= i < self.slot_count() && #[trigger] self.slots()[i].entity is Some ==> self.gen_of(
                i,
            ) <= u32::MAX - 1
        &&& self.slot_count() <= u32::MAX
        &&& self.barrier() >= self.slot_count()
    }

    /// The entity record a key currently denotes, if the key is live.
    pub open spec fn spec_get(self, key: EntityKey) -> Option<Entity> {
        if key.id < self.slot_count() && self.slots()[key.id as int].entity is Some && self.gen_of(
            key.id as int,
        ) == key.generation {
            Some(self.slots()[key.id as int].entity->0)
        } else {
            None
        }
    }

    pub fn new() -> (r: Self)
        ensures
            r.wf(),
            r.slot_count() == 0,
    {
        Self { vec: Vec::new(), empty_indices: Vec::new(), free_indices_barrier: 0 }
    }

    /// Read the entity record behind a key; `None` for a stale key.
    pub fn get(&self, key: EntityKey) -> (r: Option<&Entity>)
        ensures
            match r {
                Some(e) => self.spec_get(key) == Some(*e),
                None => self.spec_get(key) is None,
            },
    {
        if (key.id as usize) >= self.vec.len() {
            return None;
        }
        let slot = &self.vec[key.id as usize];
        match &slot.entity {
            Some(entity) => {
                if slot.generation == key.generation {
                    Some(entity)
                } else {
                    None
                }
            },
            None => None,
        }
    }

    /// Mutably borrow the entity record behind a key; `None` for a stale
    /// key.  On `Some`, the allocator afterwards holds whatever the caller
    /// leaves in the borrow, at the same slot and generation.
    pub fn get_mut(&mut self, key: EntityKey) -> (r: Option<&mut Entity>)
        requires
            old(self).wf(),
        ensures
            final(self).wf(),
            match r {
                Some(e) => {
                    &&& old(self).spec_get(key) == Some(*e)
                    &&& final(self).slots() == old(self).slots().update(
                        key.id as int,
                        Slot { entity: Some(*final(e)), generation: key.generation },
                    )
                    &&& final(self).free_list() == old(self).free_list()
                    &&& final(self).barrier() == old(self).barrier()
                },
                None => {
                    &&& old(self).spec_get(key) is None
                    &&& *final(self) == *old(self)
                },
            },
    {
        if (key.id as usize) >= self.vec.len() {
            return None;
        }
        let idx = key.id as usize;
        let is_live = match &self.vec[idx].entity {
            Some(_) => self.vec[idx].generation == key.generation,
            None => false,
        };
        if !is_live {
            return None;
        }
        match &mut self.vec[idx].entity {
            Some(entity) => Some(entity),
            None => {
                proof {
                    assert(false);
                }
                None
            },
        }
    }

    /// Allocate a slot for an entity record: reuse the most recently freed
    /// slot (bumping its generation), else append a fresh slot at
    /// generation 0.
    pub fn insert(&mut self, entity: Entity) -> (key: EntityKey)
        requires
            old(self).wf(),
            old(self).slot_count() < u32::MAX,
        ensures
            final(self).wf(),
            key.id < final(self).slot_count(),
            final(self).slots()[key.id as int] == (Slot {
                entity: Some(entity),
                generation: key.generation,
            }),
            final(self).spec_get(key) == Some(entity),
            forall|i: int|
                0 <= i < old(self).slot_count() && i != key.id ==> final(self).slots()[i] == old(
                    self,
                ).slots()[i],
            forall|i: int|
                0 <= i < old(self).slot_count() ==> #[trigger] final(self).gen_of(i) >= old(
                    self,
                ).gen_of(i),
            key.id < old(self).slot_count() ==> old(self).slots()[key.id as int].entity is None
                && key.generation == old(self).gen_of(key.id as int) + 1,
            key.id >= old(self).slot_count() ==> key.id == old(self).slot_count()
                && key.generation == 0,
            key.id < old(self).slot_count() ==> final(self).slot_count() == old(
                self,
            ).slot_count(),
            key.id >= old(self).slot_count() ==> final(self).slot_count() == old(
                self,
            ).slot_count() + 1,
            final(self).slot_count() >= old(self).slot_count(),
    {
        if let Some(empty_index) = self.empty_indices.pop() {
            let idx = empty_index as usize;
            let next_gen = self.vec[idx].generation + 1;
            self.vec[idx] = Slot { entity: Some(entity), generation: next_gen };
            EntityKey::new(empty_index, next_gen)
        } else {
            let next_id = self.vec.len() as u32;
            self.vec.push(Slot { entity: Some(entity), generation: 0 });
            if self.free_indices_barrier < next_id + 1 {
                self.free_indices_barrier = next_id + 1;
            }
            EntityKey::new(next_id, 0)
        }
    }

    /// Take the entity record out and bump the slot's generation: the key is
    /// stale from now on.  Stale keys are a no-op returning `None`.
    pub fn remove(&mut self, key: EntityKey) -> (r: Option<Entity>)
        requires
            old(self).wf(),
        ensures
            final(self).wf(),
            match r {
                Some(e) => {
                    &&& old(self).spec_get(key) == Some(e)
                    &&& final(self).slots() == old(self).slots().update(
                        key.id as int,
                        Slot { entity: None, generation: (key.generation + 1) as u32 },
                    )
                    &&& final(self).gen_of(key.id as int) == key.generation + 1
                    &&& (final(self).free_list() == old(self).free_list().push(key.id)
                        || final(self).free_list() == old(self).free_list())
                },
                None => {
                    &&& old(self).spec_get(key) is None
                    &&& *final(self) == *old(self)
                },
            },
            forall|i: int|
                0 <= i < old(self).slot_count() ==> #[trigger] final(self).gen_of(i) >= old(
                    self,
                ).gen_of(i),
            final(self).slot_count() == old(self).slot_count(),
            final(self).barrier() == old(self).barrier(),
    {
        if (key.id as usize) >= self.vec.len() {
            return None;
        }
        let idx = key.id as usize;
        let is_live = match &self.vec[idx].entity {
            Some(_) => self.vec[idx].generation == key.generation,
            None => false,
        };
        if !is_live {
            return None;
        }
        let next_gen = key.generation + 1;
        let mut taken = Slot { entity: None, generation: next_gen };
        core::mem::swap(&mut self.vec[idx], &mut taken);
        if next_gen <= u32::MAX - 2 {
            self.empty_indices.push(key.id);
        }
        match taken.entity {
            Some(entity) => Some(entity),
            None => {
                proof {
                    assert(false);
                }
                None
            },
        }
    }

    /// Hand out a key for a slot that is not yet populated: the top free
    /// slot if one remains (claimed off the free list, at its current
    /// generation), else a brand-new index past the end of the slot vector,
    /// counted by the barrier and materialized by `update_with_barriers`.
    pub fn reserve(&mut self) -> (key: EntityKey)
        requires
            old(self).wf(),
            old(self).barrier() < u32::MAX,
        ensures
            final(self).wf(),
            final(self).slots() == old(self).slots(),
            old(self).free_list().len() > 0 ==> {
                &&& key.id == old(self).free_list().last()
                &&& key.generation == old(self).gen_of(key.id as int)
                &&& key.id < old(self).slot_count()
                &&& old(self).slots()[key.id as int].entity is None
                &&& final(self).free_list() == old(self).free_list().drop_last()
                &&& final(self).barrier() == old(self).barrier()
            },
            old(self).free_list().len() == 0 ==> {
                &&& key.id == old(self).barrier()
                &&& key.generation == 0
                &&& final(self).barrier() == old(self).barrier() + 1
                &&& final(self).free_list() == old(self).free_list()
            },
            // a reservation names no live slot until the barrier lands
            final(self).spec_get(key) is None,
    {
        if let Some(empty_index) = self.empty_indices.pop() {
            let generation = self.vec[empty_index as usize].generation;
            EntityKey::new(empty_index, generation)
        } else {
            let id = self.free_indices_barrier;
            self.free_indices_barrier = self.free_indices_barrier + 1;
            EntityKey::new(id, 0)
        }
    }

    /// Can this reserved key be populated right now: the slot exists, is
    /// empty, matches the key's generation, and is not sitting on the free
    /// list where a later `insert` would hand it out again.
    pub open spec fn spec_can_fill(self, key: EntityKey) -> bool {
        &&& key.id < self.slot_count()
        &&& self.slots()[key.id as int].entity is None
        &&& self.gen_of(key.id as int) == key.generation
        &&& key.generation <= u32::MAX - 1
        &&& !self.free_list().contains(key.id)
    }

    pub fn can_fill(&self, key: EntityKey) -> (r: bool)
        ensures
            r == self.spec_can_fill(key),
    {
        if (key.id as usize) >= self.vec.len() {
            return false;
        }
        let idx = key.id as usize;
        let ok = match &self.vec[idx].entity {
            Some(_) => false,
            None => self.vec[idx].generation == key.generation && self.vec[idx].generation
                <= u32::MAX - 1,
        };
        if !ok {
            return false;
        }
        !self.free_list_contains(key.id)
    }

    /// Populate a previously reserved slot.  A no-op when the slot is
    /// already occupied, the generation no longer matches, or the slot has
    /// not been materialized yet.
    pub fn insert_with_reserved_key(&mut self, reserved_key: EntityKey, entity_to_insert: Entity)
        requires
            old(self).wf(),
        ensures
            final(self).wf(),
            final(self).free_list() == old(self).free_list(),
            final(self).barrier() == old(self).barrier(),
            if old(self).spec_can_fill(reserved_key) {
                final(self).slots() == old(self).slots().update(
                    reserved_key.id as int,
                    Slot { entity: Some(entity_to_insert), generation: reserved_key.generation },
                )
            } else {
                final(self).slots() == old(self).slots()
            },
    {
        if (reserved_key.id as usize) >= self.vec.len() {
            return ;
        }
        let idx = reserved_key.id as usize;
        let fillable = match &self.vec[idx].entity {
            Some(_) => false,
            None => self.vec[idx].generation == reserved_key.generation && self.vec[idx].generation
                <= u32::MAX - 1,
        };
        if !fillable {
            return ;
        }
        // a slot still on the free list is not a reservation: filling it
        // would let a later insert reuse an occupied slot
        if self.free_list_contains(reserved_key.id) {
            return ;
        }
        self.vec[idx] = Slot {
            entity: Some(entity_to_insert),
            generation: reserved_key.generation,
        };
    }

    fn free_list_contains(&self, id: u32) -> (r: bool)
        ensures
            r == self.free_list().contains(id),
    {
        let mut k: usize = 0;
        while k < self.empty_indices.len()
            invariant
                k <= self.empty_indices@.len(),
                forall|j: int| 0 <= j < k ==> self.empty_indices@[j] != id,
            decreases self.empty_indices@.len() - k,
        {
            if self.empty_indices[k] == id {
                proof {
                    assert(self.empty_indices@[k as int] == id);
                }
                return true;
            }
            k = k + 1;
        }
        false
    }

    /// Start-of-tick: the barrier for brand-new indices restarts at the
    /// current end of the slot vector.
    pub fn reset_barriers(&mut self)
        requires
            old(self).wf(),
        ensures
            final(self).wf(),
            final(self).slots() == old(self).slots(),
            final(self).free_list() == old(self).free_list(),
            final(self).barrier() == final(self).slot_count(),
    {
        self.free_indices_barrier = self.vec.len() as u32;
    }

    /// End-of-tick: materialize every brand-new index handed out by
    /// `reserve` as an empty slot at generation 0, then reset the barrier.
    pub fn update_with_barriers(&mut self)
        requires
            old(self).wf(),
        ensures
            final(self).wf(),
            final(self).free_list() == old(self).free_list(),
            final(self).slot_count() >= old(self).slot_count(),
            old(self).barrier() >= old(self).slot_count() ==> final(self).slot_count() == old(
                self,
            ).barrier(),
            forall|i: int|
                0 <= i < old(self).slot_count() ==> final(self).slots()[i] == old(self).slots()[i],
            forall|i: int|
                old(self).slot_count() <= i < final(self).slot_count() ==> final(self).slots()[i]
                    == (Slot { entity: None, generation: 0u32 }),
            final(self).barrier() == final(self).slot_count(),
    {
        while (self.vec.len() as u32) < self.free_indices_barrier
            invariant
                self.wf(),
                self.free_indices_barrier == old(self).free_indices_barrier,
                self.free_list() == old(self).free_list(),
                self.slot_count() >= old(self).slot_count(),
                self.slot_count() <= u32::MAX,
                forall|i: int|
                    0 <= i < old(self).slot_count() ==> self.slots()[i] == old(self).slots()[i],
                forall|i: int|
                    old(self).slot_count() <= i < self.slot_count() ==> self.slots()[i] == (Slot {
                        entity: None,
                        generation: 0u32,
                    }),
            decreases self.free_indices_barrier - self.vec@.len(),
        {
            self.vec.push(Slot { entity: None, generation: 0 });
        }
        self.free_indices_barrier = self.vec.len() as u32;
    }
}

/// Generational-key soundness for entity keys: once a slot's generation has
/// moved past a key's generation — as a successful `remove` ensures — the
/// key is rejected by `get`, `get_mut` and `remove` forever, because every
/// operation ensures generations never decrease.
pub proof fn lemma_stale_entity_key_rejected(e: Entities, key: EntityKey)
    requires
        key.id < e.slot_count() ==> e.gen_of(key.id as int) > key.generation,
    ensures
        e.spec_get(key) is None,
{
}

} // verus!
