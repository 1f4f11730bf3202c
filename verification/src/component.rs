//! Component identity and archetype identity.  A component type is known to
//! the engine by a caller-supplied 64-bit type key plus its memory layout
//! (size and alignment) and its preferred physical storage; the engine
//! assigns it a dense `ComponentId` the first time the key is seen.  An
//! archetype is a unique sorted set of component ids, split into the ids
//! stored columnar and the ids stored packed-row.

use vstd::prelude::*;
use crate::sorted_vec::SortedVec;

verus! {

/// Largest component size the engine accepts, in bytes.
pub const MAX_COMPONENT_SIZE: usize = 1048576;

/// Largest component alignment the engine accepts, in bytes.
pub const MAX_COMPONENT_ALIGN: usize = 4096;

/// Dense id of a registered component type.
#[derive(Ord, PartialOrd, Eq, PartialEq, Structural, Clone, Copy, Hash, Debug)]
pub struct ComponentId(pub u32);

/// Dense id of an archetype.
#[derive(Eq, PartialEq, Structural, Clone, Copy, Hash, Debug)]
pub struct ArchetypeId(pub u32);

/// Hash value of an archetype's component set.
#[derive(Eq, PartialEq, Structural, Clone, Copy, Hash, Debug)]
pub struct ArchetypeHash(pub u32);

/// The physical layouts a component can be routed to.
#[derive(Eq, PartialEq, Structural, Clone, Copy, Debug)]
pub enum StorageTypes {
    TableAoS,
    TableSoA,
    SparseSet,
}

/// Everything the engine records about one component type.
#[derive(Debug)]
pub struct ComponentInfo {
    pub name: String,
    pub comp_id: ComponentId,
    /// Caller-supplied identity of the component type; two registrations
    /// with the same key name the same type.
    pub type_key: u64,
    pub size: usize,
    pub align: usize,
    /// Which table layout values of this type are routed to.
    pub storage: StorageTypes,
}

impl ComponentInfo {
    /// Layout limits every registered component obeys.
    pub open spec fn wf(self) -> bool {
        &&& self.size <= MAX_COMPONENT_SIZE
        &&& 1 <= self.align <= MAX_COMPONENT_ALIGN
    }

    pub fn new(
        comp_id: u32,
        name: String,
        type_key: u64,
        size: usize,
        align: usize,
        storage: StorageTypes,
    ) -> (r: Self)
        requires
            size <= MAX_COMPONENT_SIZE,
            1 <= align <= MAX_COMPONENT_ALIGN,
        ensures
            r.wf(),
            r.comp_id == ComponentId(comp_id),
            r.type_key == type_key,
            r.size == size,
            r.align == align,
            r.storage == storage,
            r.name == name,
    {
        Self { name, comp_id: ComponentId(comp_id), type_key, size, align, storage }
    }
}

/// A unique component-id set with its storage routing: `soa_comp_ids` go to
/// the columnar table, `aos_comp_ids` to the packed-row table.
pub struct Archetype {
    pub archetype_id: ArchetypeId,
    pub soa_comp_ids: SortedVec,
    pub aos_comp_ids: SortedVec,
}

impl Archetype {
    /// The full component-id set of the archetype, columnar and packed
    /// together.
    pub open spec fn all_comp_ids(self) -> Set<u32> {
        self.soa_comp_ids@.to_set().union(self.aos_comp_ids@.to_set())
    }

    pub open spec fn wf(self) -> bool {
        &&& self.soa_comp_ids.wf()
        &&& self.aos_comp_ids.wf()
    }

    pub fn new(archetype_id: ArchetypeId, soa_comp_ids: SortedVec, aos_comp_ids: SortedVec) -> (r:
        Self)
        ensures
            r.archetype_id == archetype_id,
            r.soa_comp_ids == soa_comp_ids,
            r.aos_comp_ids == aos_comp_ids,
    {
        Self { archetype_id, soa_comp_ids, aos_comp_ids }
    }
}

/// One component's worth of data handed in when an entity is created: the
/// type's identity, layout and routing, and the value itself as bytes.
pub struct ComponentRecord {
    pub name: String,
    pub type_key: u64,
    pub size: usize,
    pub align: usize,
    pub storage: StorageTypes,
    pub bytes: Vec<u8>,
}

impl ComponentRecord {
    /// The bytes are exactly one value of the declared layout.
    pub open spec fn wf(self) -> bool {
        &&& self.bytes@.len() == self.size
        &&& self.size <= MAX_COMPONENT_SIZE
        &&& 1 <= self.align <= MAX_COMPONENT_ALIGN
    }
}

} // verus!
