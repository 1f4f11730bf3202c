//! The catalog: registers component types, finds or creates the archetype
//! for a component set, stores entity rows in the archetype's tables, and
//! keeps the entity allocator's `(archetype, row)` records in sync with the
//! tables' own entity lists — in both directions, which is what makes
//! swap-remove compaction and stale-key tolerance safe.

use vstd::prelude::*;
use crate::cache::EntityStorageCache;
use crate::component::{
    Archetype, ArchetypeId, ComponentId, ComponentInfo, ComponentRecord, StorageTypes,
    MAX_COMPONENT_ALIGN, MAX_COMPONENT_SIZE,
};
use crate::entity::{Entities, Entity, EntityKey};
use crate::error::EcsError;
use crate::sorted_vec::{no_duplicates, SortedVec};
use crate::table_storage::{lemma_comp_bytes_swap_moved, lemma_comp_bytes_swap_other, TableStorage};

verus! {

/// Some record with component id `cid` carries exactly `bytes`.
pub open spec fn row_matches(
    ids: Seq<u32>,
    records: Seq<ComponentRecord>,
    cid: u32,
    bytes: Seq<u8>,
) -> bool {
    exists|q: int| 0 <= q < ids.len() && ids[q] == cid && bytes == records[q].bytes@
}

/// The set of type keys a record list names.
pub open spec fn records_key_set(records: Seq<ComponentRecord>) -> Set<u64> {
    Set::new(|tk: u64| exists|q: int| 0 <= q < records.len() && records[q].type_key == tk)
}

/// No two records name the same type key.
pub open spec fn records_distinct_keys(records: Seq<ComponentRecord>) -> bool {
    forall|q1: int, q2: int|
        0 <= q1 < q2 < records.len() ==> (#[trigger] records[q1]).type_key != (
        #[trigger] records[q2]).type_key
}

pub struct EntityStorage {
    entities: Entities,
    components: Vec<ComponentInfo>,
    archetypes: Vec<Archetype>,
    tables: Vec<TableStorage>,
    cache: EntityStorageCache,
}

impl EntityStorage {
    pub closed spec fn spec_entities(self) -> Entities {
        self.entities
    }

    pub closed spec fn spec_components(self) -> Seq<ComponentInfo> {
        self.components@
    }

    pub closed spec fn spec_archetypes(self) -> Seq<Archetype> {
        self.archetypes@
    }

    pub closed spec fn spec_tables(self) -> Seq<TableStorage> {
        self.tables@
    }

    /// The full component-id set of archetype `a`.
    pub open spec fn arch_set(self, a: int) -> Set<u32> {
        self.spec_archetypes()[a].all_comp_ids()
    }

    /// Does archetype `a` hold every id in `q`?
    pub open spec fn arch_matches(self, a: int, q: Seq<u32>) -> bool {
        forall|x: u32| q.contains(x) ==> self.arch_set(a).contains(x)
    }

    /// Archetype `a` holds exactly the components whose registered type key
    /// is named by one of the records — the canonical, order-independent
    /// description of which archetype a component list resolves to.
    pub open spec fn arch_set_is_for_records(self, a: int, records: Seq<ComponentRecord>) -> bool {
        forall|c: u32|
            self.arch_set(a).contains(c) <==> (c < self.spec_components().len()
                && records_key_set(records).contains(self.spec_components()[c as int].type_key))
    }

    /// A record the registry will accept: its layout is within limits and,
    /// if its key is already registered, the description matches exactly.
    pub open spec fn record_registerable(self, r: ComponentRecord) -> bool {
        &&& r.size <= MAX_COMPONENT_SIZE
        &&& 1 <= r.align <= MAX_COMPONENT_ALIGN
        &&& self.has_comp_key(r.type_key) ==> {
            let c = self.spec_components()[self.spec_comp_id_of(r.type_key)];
            c.size == r.size && c.align == r.align && c.storage == r.storage
        }
    }

    pub open spec fn records_registerable(self, records: Seq<ComponentRecord>) -> bool {
        forall|q: int|
            0 <= q < records.len() ==> self.record_registerable(#[trigger] records[q])
    }

    /// Every record's key is already registered, with exactly its layout.
    pub open spec fn records_registered(self, records: Seq<ComponentRecord>) -> bool {
        &&& self.records_registerable(records)
        &&& forall|q: int|
            0 <= q < records.len() ==> self.has_comp_key((#[trigger] records[q]).type_key)
    }

    /// Is `tk` a registered component type key?
    pub open spec fn has_comp_key(self, tk: u64) -> bool {
        exists|j: int| 0 <= j < self.spec_components().len() && self.spec_components()[j].type_key == tk
    }

    /// The dense id registered for type key `tk`.
    pub open spec fn spec_comp_id_of(self, tk: u64) -> int {
        choose|j: int| 0 <= j < self.spec_components().len() && self.spec_components()[j].type_key == tk
    }

    /// Registry invariant: dense ids, unique type keys, layouts in limits.
    pub open spec fn wf_components(self) -> bool {
        &&& self.spec_components().len() <= u32::MAX
        &&& forall|i: int|
            0 <= i < self.spec_components().len() ==> (#[trigger] self.spec_components()[i]).wf()
                && self.spec_components()[i].comp_id == ComponentId(i as u32)
        &&& forall|i: int, j: int|
            0 <= i < j < self.spec_components().len() ==> (#[trigger] self.spec_components()[
                i
            ]).type_key != (#[trigger] self.spec_components()[j]).type_key
    }

    /// Catalog invariant for one archetype: its id is its index, its id
    /// sets are sorted and duplicate-free and split by the components'
    /// storage preference, and its table stores exactly those ids with the
    /// registered sizes.
    pub open spec fn wf_archetype(self, a: int) -> bool {
        let arch = self.spec_archetypes()[a];
        let table = self.spec_tables()[a];
        &&& arch.archetype_id == ArchetypeId(a as u32)
        &&& arch.wf()
        &&& no_duplicates(arch.soa_comp_ids@)
        &&& no_duplicates(arch.aos_comp_ids@)
        &&& table.wf()
        &&& table.soa_ids() == arch.soa_comp_ids@
        &&& table.aos_ids() == arch.aos_comp_ids@
        &&& forall|j: int|
            0 <= j < arch.soa_comp_ids@.len() ==> #[trigger] arch.soa_comp_ids@[j]
                < self.spec_components().len() && self.spec_components()[
                arch.soa_comp_ids@[j] as int
            ].storage != StorageTypes::TableAoS
        &&& forall|j: int|
            0 <= j < arch.aos_comp_ids@.len() ==> #[trigger] arch.aos_comp_ids@[j]
                < self.spec_components().len() && self.spec_components()[
                arch.aos_comp_ids@[j] as int
            ].storage == StorageTypes::TableAoS
        &&& forall|j: int|
            0 <= j < arch.soa_comp_ids@.len() ==> #[trigger] table.soa().col_elem_size(j)
                == self.spec_components()[arch.soa_comp_ids@[j] as int].size
        &&& forall|j: int|
            0 <= j < arch.aos_comp_ids@.len() ==> (#[trigger] table.aos().metas()[j]).size
                == self.spec_components()[arch.aos_comp_ids@[j] as int].size
    }

    /// Every table row's owning key is live and points back at that row.
    pub open spec fn wf_rows(self) -> bool {
        forall|a: int, r: int|
            0 <= a < self.spec_tables().len() && 0 <= r < self.spec_tables()[a].spec_len()
                ==> self.spec_entities().spec_get(
                #[trigger] self.spec_tables()[a].spec_entities()[r],
            ) == Some(Entity { archetype_id: ArchetypeId(a as u32), row_id: r as u32 })
    }

    /// Every live entity record points at an existing row owned by exactly
    /// that entity's key.
    pub open spec fn wf_records(self) -> bool {
        forall|i: int|
            0 <= i < self.spec_entities().slot_count() && (#[trigger] self.spec_entities().slots()[
                i
            ]).entity is Some ==> {
                let e = self.spec_entities().slots()[i].entity->0;
                &&& e.archetype_id.0 < self.spec_tables().len()
                &&& e.row_id < self.spec_tables()[e.archetype_id.0 as int].spec_len()
                &&& self.spec_tables()[e.archetype_id.0 as int].spec_entities()[e.row_id as int]
                    == (EntityKey { id: i as u32, generation: self.spec_entities().gen_of(i) })
            }
    }

    pub open spec fn wf(self) -> bool {
        &&& self.spec_entities().wf()
        &&& self.wf_components()
        &&& self.spec_tables().len() == self.spec_archetypes().len()
        &&& self.spec_archetypes().len() <= u32::MAX
        &&& forall|a: int| 0 <= a < self.spec_archetypes().len() ==> #[trigger] self.wf_archetype(a)
        // no two archetypes share a component set
        &&& forall|a1: int, a2: int|
            0 <= a1 < a2 < self.spec_archetypes().len() ==> self.arch_set(a1) != self.arch_set(a2)
        &&& self.wf_rows()
        &&& self.wf_records()
    }

    pub fn new() -> (r: Self)
        ensures
            r.wf(),
            r.spec_components().len() == 0,
            r.spec_archetypes().len() == 0,
            r.spec_entities().slot_count() == 0,
    {
        Self {
            entities: Entities::new(),
            components: Vec::new(),
            archetypes: Vec::new(),
            tables: Vec::new(),
            cache: EntityStorageCache::new(),
        }
    }

    /// Register a component type, or return its existing id: registration
    /// is idempotent by type key.  Errs when the layout is outside the
    /// engine's limits, clashes with an earlier registration of the same
    /// key, or the id space is exhausted.
    pub fn create_or_get_component_by_typeid(
        &mut self,
        name: &str,
        type_key: u64,
        size: usize,
        align: usize,
        storage: StorageTypes,
    ) -> (r: Result<ComponentId, EcsError>)
        requires
            old(self).wf(),
        ensures
            final(self).wf(),
            final(self).spec_entities() == old(self).spec_entities(),
            final(self).spec_archetypes() == old(self).spec_archetypes(),
            final(self).spec_tables() == old(self).spec_tables(),
            match r {
                Ok(cid) => {
                    &&& final(self).has_comp_key(type_key)
                    &&& cid.0 < final(self).spec_components().len()
                    &&& final(self).spec_components()[cid.0 as int].type_key == type_key
                    &&& final(self).spec_components()[cid.0 as int].size == size
                    &&& final(self).spec_components()[cid.0 as int].align == align
                    &&& final(self).spec_components()[cid.0 as int].storage == storage
                    &&& if old(self).has_comp_key(type_key) {
                        final(self).spec_components() == old(self).spec_components()
                    } else {
                        cid.0 == old(self).spec_components().len() && final(self).spec_components().len() == old(self).spec_components().len() + 1
                            && forall|i: int|
                            0 <= i < old(self).spec_components().len() ==> final(self).spec_components()[i] == old(self).spec_components()[i]
                    }
                },
                Err(_) => final(self).spec_components() == old(self).spec_components(),
            },
            // registration succeeds unless the layout is bad, clashing, or
            // the id space is full
            (!old(self).has_comp_key(type_key) && size <= MAX_COMPONENT_SIZE && 1 <= align
                <= MAX_COMPONENT_ALIGN && old(self).spec_components().len() < u32::MAX) ==> r is Ok,
            // re-registering a key with its exact earlier description also
            // succeeds
            (old(self).has_comp_key(type_key) && ({
                let c = old(self).spec_components()[old(self).spec_comp_id_of(type_key)];
                c.size == size && c.align == align && c.storage == storage
            })) ==> r is Ok,
    {
        let n = self.components.len();
        let mut j: usize = 0;
        while j < n
            invariant
                self.wf(),
                n == self.spec_components().len(),
                j <= n,
                forall|i: int|
                    0 <= i < j ==> (#[trigger] self.spec_components()[i]).type_key != type_key,
            decreases n - j,
        {
            if self.components[j].type_key == type_key {
                let c = &self.components[j];
                proof {
                    assert(self.spec_components()[j as int].type_key == type_key);
                    self.lemma_comp_id_of_unique(j as u32);
                }
                if c.size == size && c.align == align && storage_eq(c.storage, storage) {
                    return Ok(ComponentId(j as u32));
                } else {
                    return Err(EcsError::InconsistentRegistration);
                }
            }
            j = j + 1;
        }
        if size > MAX_COMPONENT_SIZE || align < 1 || align > MAX_COMPONENT_ALIGN {
            return Err(EcsError::UnsupportedLayout);
        }
        if n >= u32::MAX as usize {
            return Err(EcsError::ComponentIdSpaceExhausted);
        }
        let info = ComponentInfo::new(
            n as u32,
            name.to_string(),
            type_key,
            size,
            align,
            storage,
        );
        self.components.push(info);
        proof {
            assert(self.spec_components()[n as int].type_key == type_key);
            assert forall|a: int| 0 <= a < self.spec_archetypes().len() implies #[trigger] self.wf_archetype(a) by {
                assert(old(self).wf_archetype(a));
            }
            assert forall|a1: int, a2: int|
                0 <= a1 < a2 < self.spec_archetypes().len() implies self.arch_set(a1)
                != self.arch_set(a2) by {
                assert(old(self).arch_set(a1) != old(self).arch_set(a2));
                assert(self.spec_archetypes() == old(self).spec_archetypes());
            }
        }
        Ok(ComponentId(n as u32))
    }

    /// Register by the record's own description.
    pub fn create_or_get_component(&mut self, record: &ComponentRecord) -> (r: Result<
        ComponentId,
        EcsError,
    >)
        requires
            old(self).wf(),
        ensures
            final(self).wf(),
            final(self).spec_entities() == old(self).spec_entities(),
            final(self).spec_archetypes() == old(self).spec_archetypes(),
            final(self).spec_tables() == old(self).spec_tables(),
            match r {
                Ok(cid) => {
                    &&& cid.0 < final(self).spec_components().len()
                    &&& final(self).spec_components()[cid.0 as int].type_key == record.type_key
                    &&& final(self).spec_components()[cid.0 as int].size == record.size
                    &&& final(self).spec_components()[cid.0 as int].storage == record.storage
                    &&& forall|i: int|
                        0 <= i < old(self).spec_components().len() ==> final(self).spec_components()[i] == old(self).spec_components()[i]
                    &&& final(self).spec_components().len() >= old(self).spec_components().len()
                },
                Err(_) => final(self).spec_components() == old(self).spec_components(),
            },
            final(self).spec_components().len() <= old(self).spec_components().len() + 1,
            final(self).spec_components().len() > old(self).spec_components().len() ==> final(self).spec_components()[old(self).spec_components().len() as int].type_key
                == record.type_key,
            (old(self).record_registerable(*record) && (old(self).has_comp_key(record.type_key)
                || old(self).spec_components().len() < u32::MAX)) ==> r is Ok,
    {
        self.create_or_get_component_by_typeid(
            record.name.as_str(),
            record.type_key,
            record.size,
            record.align,
            record.storage,
        )
    }

    /// All archetypes whose component set includes every id of the query —
    /// exactly those, each listed once, in ascending id order.
    pub fn find_fitting_archetypes(&self, query_comp_ids: &SortedVec) -> (r: Vec<ArchetypeId>)
        requires
            self.wf(),
        ensures
            forall|k: int|
                0 <= k < r@.len() ==> (#[trigger] r@[k]).0 < self.spec_archetypes().len(),
            forall|k1: int, k2: int| 0 <= k1 < k2 < r@.len() ==> r@[k1].0 < r@[k2].0,
            forall|a: int|
                0 <= a < self.spec_archetypes().len() ==> (r@.contains(ArchetypeId(a as u32))
                    <==> self.arch_matches(a, query_comp_ids@)),
    {
        let mut out: Vec<ArchetypeId> = Vec::new();
        let mut a: usize = 0;
        while a < self.archetypes.len()
            invariant
                self.wf(),
                a <= self.spec_archetypes().len(),
                forall|k: int| 0 <= k < out@.len() ==> (#[trigger] out@[k]).0 < a,
                forall|k1: int, k2: int| 0 <= k1 < k2 < out@.len() ==> out@[k1].0 < out@[k2].0,
                forall|a2: int|
                    0 <= a2 < a ==> (out@.contains(ArchetypeId(a2 as u32)) <==> self.arch_matches(
                        a2,
                        query_comp_ids@,
                    )),
            decreases self.spec_archetypes().len() - a,
        {
            let matches = self.arch_contains_all(a, query_comp_ids);
            let ghost outpre = out@;
            if matches {
                out.push(ArchetypeId(a as u32));
            }
            proof {
                assert forall|a2: int|
                    0 <= a2 < a + 1 implies (out@.contains(ArchetypeId(a2 as u32))
                    <==> self.arch_matches(a2, query_comp_ids@)) by {
                    if a2 < a {
                        if outpre.contains(ArchetypeId(a2 as u32)) {
                            let k = choose|k: int|
                                0 <= k < outpre.len() && outpre[k] == ArchetypeId(a2 as u32);
                            assert(out@[k] == ArchetypeId(a2 as u32));
                        }
                        if out@.contains(ArchetypeId(a2 as u32)) {
                            let k = choose|k: int|
                                0 <= k < out@.len() && out@[k] == ArchetypeId(a2 as u32);
                            if k < outpre.len() {
                                assert(outpre[k] == ArchetypeId(a2 as u32));
                            }
                        }
                    } else {
                        if matches {
                            assert(out@[out@.len() - 1] == ArchetypeId(a2 as u32));
                        } else {
                            if out@.contains(ArchetypeId(a2 as u32)) {
                                let k = choose|k: int|
                                    0 <= k < out@.len() && out@[k] == ArchetypeId(a2 as u32);
                                assert(out@[k].0 < a);
                            }
                        }
                    }
                }
            }
            a = a + 1;
        }
        out
    }

    /// Register every record's component type, handing back the dense id of
    /// each record in order.
    #[verifier::loop_isolation(false)]
    fn register_components(&mut self, records: &Vec<ComponentRecord>) -> (r: Result<
        Vec<u32>,
        EcsError,
    >)
        requires
            old(self).wf(),
        ensures
            final(self).wf(),
            final(self).spec_entities() == old(self).spec_entities(),
            final(self).spec_archetypes() == old(self).spec_archetypes(),
            final(self).spec_tables() == old(self).spec_tables(),
            forall|i: int|
                0 <= i < old(self).spec_components().len() ==> final(self).spec_components()[i]
                    == old(self).spec_components()[i],
            final(self).spec_components().len() >= old(self).spec_components().len(),
            match r {
                Ok(ids) => {
                    &&& ids@.len() == records@.len()
                    &&& forall|q: int|
                        0 <= q < ids@.len() ==> {
                            &&& #[trigger] ids@[q] < final(self).spec_components().len()
                            &&& final(self).spec_components()[ids@[q] as int].type_key
                                == records@[q].type_key
                            &&& final(self).spec_components()[ids@[q] as int].size == records@[
                                q
                            ].size
                            &&& final(self).spec_components()[ids@[q] as int].storage == records@[
                                q
                            ].storage
                        }
                },
                Err(_) => true,
            },
            final(self).spec_components().len() <= old(self).spec_components().len()
                + records@.len(),
            (old(self).records_registerable(records@) && records_distinct_keys(records@) && old(
                self,
            ).spec_components().len() + records@.len() <= u32::MAX) ==> r is Ok,
    {
        let ghost can = old(self).records_registerable(records@) && records_distinct_keys(
            records@,
        ) && old(self).spec_components().len() + records@.len() <= u32::MAX;
        let mut ids: Vec<u32> = Vec::new();
        let mut q: usize = 0;
        while q < records.len()
            invariant
                self.wf(),
                q <= records@.len(),
                ids@.len() == q,
                forall|i: int|
                    0 <= i < old(self).spec_components().len() ==> self.spec_components()[i] == old(self).spec_components()[i],
                self.spec_components().len() >= old(self).spec_components().len(),
                self.spec_entities() == old(self).spec_entities(),
                self.spec_archetypes() == old(self).spec_archetypes(),
                self.spec_tables() == old(self).spec_tables(),
                forall|q2: int|
                    0 <= q2 < q ==> {
                        &&& #[trigger] ids@[q2] < self.spec_components().len()
                        &&& self.spec_components()[ids@[q2] as int].type_key == records@[
                            q2
                        ].type_key
                        &&& self.spec_components()[ids@[q2] as int].size == records@[q2].size
                        &&& self.spec_components()[ids@[q2] as int].storage == records@[q2].storage
                    },
                self.spec_components().len() <= old(self).spec_components().len() + q,
                forall|i: int|
                    old(self).spec_components().len() <= i < self.spec_components().len()
                        ==> exists|q2: int|
                        0 <= q2 < q && (#[trigger] self.spec_components()[i]).type_key == records@[
                            q2
                        ].type_key,
            decreases records@.len() - q,
        {
            proof {
                if can {
                    // the pending record is still acceptable in the grown
                    // registry, so registration cannot fail
                    let key = records@[q as int].type_key;
                    if self.has_comp_key(key) {
                        let j = self.spec_comp_id_of(key);
                        assert(0 <= j < self.spec_components().len() && self.spec_components()[
                            j
                        ].type_key == key);
                        if j >= old(self).spec_components().len() {
                            let q2 = choose|q2: int|
                                0 <= q2 < q && (#[trigger] self.spec_components()[j]).type_key
                                    == records@[q2].type_key;
                            assert(records@[q2].type_key == records@[q as int].type_key);
                            assert(false);
                        } else {
                            assert(old(self).spec_components()[j] == self.spec_components()[j]);
                            assert(old(self).has_comp_key(key)) by {
                                assert(old(self).spec_components()[j].type_key == key);
                            }
                            old(self).lemma_comp_id_of_unique(j as u32);
                            self.lemma_comp_id_of_unique(j as u32);
                            assert(old(self).record_registerable(records@[q as int]));
                            assert(self.record_registerable(records@[q as int]));
                        }
                    } else {
                        assert(self.record_registerable(records@[q as int]));
                        assert(self.spec_components().len() < u32::MAX);
                    }
                }
            }
            let ghost pre_len = self.spec_components().len();
            let cid = match self.create_or_get_component(&records[q]) {
                Ok(c) => c,
                Err(e) => {
                    proof {
                        if can {
                            assert(false);
                        }
                    }
                    return Err(e);
                },
            };
            ids.push(cid.0);
            proof {
                assert forall|i: int|
                    old(self).spec_components().len() <= i < self.spec_components().len()
                        implies exists|q2: int|
                    0 <= q2 < q + 1 && (#[trigger] self.spec_components()[i]).type_key == records@[
                        q2
                    ].type_key by {
                    if i < pre_len {
                    } else {
                        assert(self.spec_components()[i].type_key == records@[q as int].type_key);
                    }
                }
            }
            q = q + 1;
        }
        Ok(ids)
    }

    /// Find the archetype holding exactly the records' component set, or
    /// create it, splitting the set between the columnar and packed tables
    /// by each component's storage preference.  Identical sets — whatever
    /// the order the records came in — resolve to the same archetype id.
    pub fn create_or_get_archetype(&mut self, records: &Vec<ComponentRecord>) -> (r: Result<
        ArchetypeId,
        EcsError,
    >)
        requires
            old(self).wf(),
        ensures
            final(self).wf(),
            final(self).spec_entities() == old(self).spec_entities(),
            final(self).spec_archetypes().len() >= old(self).spec_archetypes().len(),
            forall|a: int|
                0 <= a < old(self).spec_archetypes().len() ==> final(self).spec_archetypes()[a]
                    == old(self).spec_archetypes()[a] && final(self).spec_tables()[a] == old(self).spec_tables()[a],
            forall|i: int|
                0 <= i < old(self).spec_components().len() ==> final(self).spec_components()[i]
                    == old(self).spec_components()[i],
            final(self).spec_components().len() >= old(self).spec_components().len(),
            match r {
                Ok(aid) => {
                    &&& aid.0 < final(self).spec_archetypes().len()
                    &&& final(self).arch_set_is_for_records(aid.0 as int, records@)
                    &&& final(self).spec_tables().len() == final(self).spec_archetypes().len()
                    &&& forall|q: int|
                        0 <= q < records@.len() ==> final(self).has_comp_key(
                            (#[trigger] records@[q]).type_key,
                        )
                    // at most one archetype is created; an existing id
                    // leaves the catalog as it was, a fresh one starts an
                    // empty table
                    &&& final(self).spec_archetypes().len() <= old(self).spec_archetypes().len()
                        + 1
                    &&& aid.0 < old(self).spec_archetypes().len() ==> final(self).spec_archetypes()
                        == old(self).spec_archetypes() && final(self).spec_tables() == old(self).spec_tables()
                    &&& aid.0 >= old(self).spec_archetypes().len() ==> final(self).spec_tables()[
                        aid.0 as int
                    ].spec_len() == 0
                },
                Err(_) => final(self).spec_archetypes() == old(self).spec_archetypes() && final(self).spec_tables() == old(self).spec_tables(),
            },
            final(self).spec_components().len() <= old(self).spec_components().len()
                + records@.len(),
            // a duplicate-free, registry-consistent record list within the
            // id and layout budgets always resolves
            ({
                &&& old(self).records_registerable(records@)
                &&& records_distinct_keys(records@)
                &&& old(self).spec_components().len() + records@.len() <= u32::MAX
                &&& old(self).spec_archetypes().len() < u32::MAX
                &&& records@.len() * (MAX_COMPONENT_SIZE + MAX_COMPONENT_ALIGN)
                    + MAX_COMPONENT_ALIGN <= usize::MAX
            }) ==> r is Ok,
    {
        match self.resolve_archetype(records) {
            Ok((aid, _ids)) => Ok(aid),
            Err(e) => Err(e),
        }
    }

    /// The work of `create_or_get_archetype`, also handing back each
    /// record's dense component id, in record order.
    #[verifier::loop_isolation(false)]
    fn resolve_archetype(&mut self, records: &Vec<ComponentRecord>) -> (r: Result<
        (ArchetypeId, Vec<u32>),
        EcsError,
    >)
        requires
            old(self).wf(),
        ensures
            final(self).wf(),
            final(self).spec_entities() == old(self).spec_entities(),
            final(self).spec_archetypes().len() >= old(self).spec_archetypes().len(),
            forall|a: int|
                0 <= a < old(self).spec_archetypes().len() ==> final(self).spec_archetypes()[a]
                    == old(self).spec_archetypes()[a] && final(self).spec_tables()[a] == old(self).spec_tables()[a],
            forall|i: int|
                0 <= i < old(self).spec_components().len() ==> final(self).spec_components()[i]
                    == old(self).spec_components()[i],
            final(self).spec_components().len() >= old(self).spec_components().len(),
            match r {
                Ok((aid, ids)) => {
                    &&& aid.0 < final(self).spec_archetypes().len()
                    &&& final(self).arch_set_is_for_records(aid.0 as int, records@)
                    &&& final(self).spec_tables().len() == final(self).spec_archetypes().len()
                    &&& ids@.len() == records@.len()
                    &&& no_duplicates(ids@)
                    &&& forall|q: int|
                        0 <= q < ids@.len() ==> {
                            &&& #[trigger] ids@[q] < final(self).spec_components().len()
                            &&& final(self).spec_components()[ids@[q] as int].type_key
                                == records@[q].type_key
                            &&& final(self).spec_components()[ids@[q] as int].size == records@[
                                q
                            ].size
                            &&& final(self).spec_components()[ids@[q] as int].storage == records@[
                                q
                            ].storage
                        }
                    &&& forall|c: u32|
                        final(self).arch_set(aid.0 as int).contains(c) <==> ids@.contains(c)
                    &&& forall|q: int|
                        0 <= q < records@.len() ==> final(self).has_comp_key(
                            (#[trigger] records@[q]).type_key,
                        )
                    &&& final(self).spec_archetypes().len() <= old(self).spec_archetypes().len()
                        + 1
                    &&& aid.0 < old(self).spec_archetypes().len() ==> final(self).spec_archetypes()
                        == old(self).spec_archetypes() && final(self).spec_tables() == old(self).spec_tables()
                    &&& aid.0 >= old(self).spec_archetypes().len() ==> final(self).spec_tables()[
                        aid.0 as int
                    ].spec_len() == 0
                },
                Err(_) => final(self).spec_archetypes() == old(self).spec_archetypes() && final(self).spec_tables() == old(self).spec_tables(),
            },
            final(self).spec_components().len() <= old(self).spec_components().len()
                + records@.len(),
            ({
                &&& old(self).records_registerable(records@)
                &&& records_distinct_keys(records@)
                &&& old(self).spec_components().len() + records@.len() <= u32::MAX
                &&& old(self).spec_archetypes().len() < u32::MAX
                &&& records@.len() * (MAX_COMPONENT_SIZE + MAX_COMPONENT_ALIGN)
                    + MAX_COMPONENT_ALIGN <= usize::MAX
            }) ==> r is Ok,
    {
        broadcast use vstd::seq_lib::group_seq_properties;

        let ghost can = old(self).records_registerable(records@) && records_distinct_keys(
            records@,
        ) && old(self).spec_components().len() + records@.len() <= u32::MAX && old(
            self,
        ).spec_archetypes().len() < u32::MAX && records@.len() * (MAX_COMPONENT_SIZE
            + MAX_COMPONENT_ALIGN) + MAX_COMPONENT_ALIGN <= usize::MAX;

        let ids = match self.register_components(records) {
            Ok(v) => v,
            Err(e) => {
                proof {
                    if can {
                        assert(false);
                    }
                }
                return Err(e);
            },
        };
        let ids_copy = clone_u32s(&ids);
        let ghost idsg = ids@;
        let sorted = SortedVec::from_vec(ids);
        proof {
            sorted@.to_multiset_ensures();
            idsg.to_multiset_ensures();
            assert forall|x: u32| sorted@.contains(x) <==> idsg.contains(x) by {
                assert(sorted@.contains(x) <==> sorted@.to_multiset().count(x) > 0);
                assert(idsg.contains(x) <==> idsg.to_multiset().count(x) > 0);
            }
        }
        if let Some(d) = sorted.check_duplicates() {
            proof {
                if can {
                    // distinct keys give distinct ids, so no duplicate was
                    // possible
                    assert(crate::sorted_vec::no_duplicates(idsg)) by {
                        assert forall|q1: int, q2: int|
                            0 <= q1 < q2 < idsg.len() implies idsg[q1] != idsg[q2] by {
                            if idsg[q1] == idsg[q2] {
                                assert(self.spec_components()[idsg[q1] as int].type_key
                                    == records@[q1].type_key);
                                assert(self.spec_components()[idsg[q2] as int].type_key
                                    == records@[q2].type_key);
                            }
                        }
                    }
                    assert(idsg.to_multiset() == sorted@.to_multiset());
                    lemma_ids_no_dup(idsg, sorted@);
                    assert(false);
                }
            }
            return Err(EcsError::DuplicateComponent(ComponentId(d)));
        }
        proof {
            assert forall|i: int| 0 <= i < sorted@.len() implies #[trigger] sorted@[i]
                < self.spec_components().len() by {
                assert(sorted@.contains(sorted@[i]));
                assert(idsg.contains(sorted@[i]));
                let q = choose|q: int| 0 <= q < idsg.len() && idsg[q] == sorted@[i];
                assert(idsg[q] < self.spec_components().len());
            }
        }
        let mut a: usize = 0;
        while a < self.archetypes.len()
            invariant
                self.wf(),
                a <= self.spec_archetypes().len(),
                sorted.wf(),
                forall|a2: int|
                    0 <= a2 < a ==> self.arch_set(a2) != sorted@.to_set(),
            decreases self.spec_archetypes().len() - a,
        {
            let forward = self.arch_contains_all(a, &sorted);
            let backward = self.sorted_covers_arch(a, &sorted);
            if forward && backward {
                proof {
                    assert(self.arch_set(a as int) =~= sorted@.to_set());
                    self.lemma_ids_characterize(idsg, records@);
                    assert forall|c: u32|
                        self.arch_set(a as int).contains(c) <==> (c
                            < self.spec_components().len() && records_key_set(records@).contains(
                            self.spec_components()[c as int].type_key,
                        )) by {
                        assert(self.arch_set(a as int).contains(c) == sorted@.to_set().contains(c));
                        assert(sorted@.to_set().contains(c) == sorted@.contains(c));
                        assert(sorted@.contains(c) <==> idsg.contains(c));
                        assert(idsg.contains(c) <==> (c < self.spec_components().len()
                            && records_key_set(records@).contains(
                            self.spec_components()[c as int].type_key,
                        )));
                    }
                }
                proof {
                    lemma_ids_no_dup(sorted@, idsg);
                    assert forall|c: u32|
                        self.arch_set(a as int).contains(c) <==> idsg.contains(c) by {
                        assert(self.arch_set(a as int).contains(c) == sorted@.to_set().contains(c));
                        assert(sorted@.to_set().contains(c) == sorted@.contains(c));
                    }
                    assert forall|q: int|
                        0 <= q < records@.len() implies self.has_comp_key(
                        (#[trigger] records@[q]).type_key,
                    ) by {
                        assert(self.spec_components()[idsg[q] as int].type_key == records@[
                            q
                        ].type_key);
                    }
                }
                return Ok((ArchetypeId(a as u32), ids_copy));
            }
            proof {
                if self.arch_set(a as int) == sorted@.to_set() {
                    assert forall|x: u32| sorted@.contains(x) implies self.arch_set(
                        a as int,
                    ).contains(x) by {
                        assert(sorted@.to_set().contains(x));
                    }
                    assert forall|x: u32| self.arch_set(a as int).contains(x) implies
                        sorted@.contains(x) by {
                        assert(sorted@.to_set().contains(x));
                    }
                    assert(false);
                }
            }
            a = a + 1;
        }
        // partition the sorted set by storage preference
        let mut soa_ids: Vec<u32> = Vec::new();
        let mut aos_ids: Vec<u32> = Vec::new();
        let sv = sorted.get_vec();
        let mut k: usize = 0;
        while k < sv.len()
            invariant
                self.wf(),
                sv@ == sorted@,
                sorted.wf(),
                no_duplicates(sorted@),
                forall|i: int| 0 <= i < sorted@.len() ==> #[trigger] sorted@[i] < self.spec_components().len(),
                k <= sorted@.len(),
                soa_ids@.len() + aos_ids@.len() == k,
                crate::sorted_vec::is_sorted(soa_ids@),
                crate::sorted_vec::is_sorted(aos_ids@),
                no_duplicates(soa_ids@),
                no_duplicates(aos_ids@),
                forall|i: int|
                    0 <= i < soa_ids@.len() ==> #[trigger] soa_ids@[i]
                        < self.spec_components().len() && self.spec_components()[
                        soa_ids@[i] as int
                    ].storage != StorageTypes::TableAoS,
                forall|i: int|
                    0 <= i < aos_ids@.len() ==> #[trigger] aos_ids@[i]
                        < self.spec_components().len() && self.spec_components()[
                        aos_ids@[i] as int
                    ].storage == StorageTypes::TableAoS,
                forall|x: u32|
                    (soa_ids@.contains(x) || aos_ids@.contains(x)) <==> sorted@.subrange(
                        0,
                        k as int,
                    ).contains(x),
            decreases sorted@.len() - k,
        {
            let x = sv[k];
            let ghost soapre = soa_ids@;
            let ghost aospre = aos_ids@;
            proof {
                assert(sorted@.contains(x)) by {
                    assert(sorted@[k as int] == x);
                }
                // x is larger than everything already placed
                assert forall|i: int| 0 <= i < soapre.len() implies soapre[i] < x by {
                    assert(sorted@.subrange(0, k as int).contains(soapre[i])) by {
                        assert(soapre.contains(soapre[i]));
                    }
                    let p2 = choose|p: int|
                        0 <= p < k && sorted@.subrange(0, k as int)[p] == soapre[i];
                    assert(sorted@[p2] == soapre[i]);
                    assert(sorted@[p2] <= sorted@[k as int]);
                    assert(sorted@[p2] != sorted@[k as int]);
                }
                assert forall|i: int| 0 <= i < aospre.len() implies aospre[i] < x by {
                    assert(sorted@.subrange(0, k as int).contains(aospre[i])) by {
                        assert(aospre.contains(aospre[i]));
                    }
                    let p2 = choose|p: int|
                        0 <= p < k && sorted@.subrange(0, k as int)[p] == aospre[i];
                    assert(sorted@[p2] == aospre[i]);
                    assert(sorted@[p2] == aospre[i]);
                    assert(sorted@[p2] <= sorted@[k as int]);
                    assert(sorted@[p2] != sorted@[k as int]);
                }
            }
            // only the packed-row layout is distinct; a sparse-set hint
            // falls back to the columnar table
            let is_aos = match self.components[x as usize].storage {
                StorageTypes::TableAoS => true,
                _ => false,
            };
            if is_aos {
                aos_ids.push(x);
            } else {
                soa_ids.push(x);
            }
            proof {
                assert(sorted@.subrange(0, (k + 1) as int) =~= sorted@.subrange(0, k as int).push(
                    x,
                ));
                assert forall|y: u32|
                    (soa_ids@.contains(y) || aos_ids@.contains(y)) <==> sorted@.subrange(
                        0,
                        (k + 1) as int,
                    ).contains(y) by {
                    if y == x {
                        assert(sorted@.subrange(0, (k + 1) as int).contains(y)) by {
                            assert(sorted@.subrange(0, (k + 1) as int)[k as int] == y);
                        }
                        if is_aos {
                            assert(aos_ids@.contains(y)) by {
                                assert(aos_ids@[aos_ids@.len() - 1] == y);
                            }
                        } else {
                            assert(soa_ids@.contains(y)) by {
                                assert(soa_ids@[soa_ids@.len() - 1] == y);
                            }
                        }
                    }
                }
            }
            k = k + 1;
        }
        proof {
            assert(sorted@.subrange(0, sorted@.len() as int) =~= sorted@);
        }
        if self.archetypes.len() >= (u32::MAX as usize) {
            proof {
                if can {
                    assert(false);
                }
            }
            return Err(EcsError::ArchetypeIdSpaceExhausted);
        }
        let new_id = self.archetypes.len() as u32;
        let soa_sv = SortedVec::from_sorted(soa_ids);
        let aos_sv = SortedVec::from_sorted(aos_ids);
        let table = match TableStorage::new(ArchetypeId(new_id), &self.components, &soa_sv, &aos_sv)
        {
            Ok(t) => t,
            Err(e) => {
                proof {
                    if can {
                        assert(aos_sv@.len() * (MAX_COMPONENT_SIZE + MAX_COMPONENT_ALIGN)
                            <= records@.len() * (MAX_COMPONENT_SIZE + MAX_COMPONENT_ALIGN)) by (nonlinear_arith)
                            requires aos_sv@.len() <= records@.len(),
                        ;
                        assert(false);
                    }
                }
                return Err(e);
            },
        };
        let ghost pre = *self;
        let arch = Archetype::new(ArchetypeId(new_id), soa_sv, aos_sv);
        self.archetypes.push(arch);
        self.tables.push(table);
        proof {
            let ai = new_id as int;
            assert(self.arch_set(ai) =~= sorted@.to_set());
            assert forall|a2: int| 0 <= a2 < self.spec_archetypes().len() implies #[trigger] self.wf_archetype(a2) by {
                if a2 < ai {
                    assert(pre.wf_archetype(a2));
                }
            }
            assert forall|a1: int, a2: int|
                0 <= a1 < a2 < self.spec_archetypes().len() implies self.arch_set(a1)
                != self.arch_set(a2) by {
                if a2 < ai {
                    assert(pre.arch_set(a1) != pre.arch_set(a2));
                } else {
                    assert(pre.arch_set(a1) != sorted@.to_set());
                }
            }
            assert(self.wf_rows()) by {
                assert forall|a2: int, rr: int|
                    0 <= a2 < self.spec_tables().len() && 0 <= rr < self.spec_tables()[
                    a2
                ].spec_len() implies self.spec_entities().spec_get(
                    #[trigger] self.spec_tables()[a2].spec_entities()[rr],
                ) == Some(Entity { archetype_id: ArchetypeId(a2 as u32), row_id: rr as u32 }) by {
                    assert(a2 < ai);
                }
            }
            self.lemma_ids_characterize(idsg, records@);
            assert forall|c: u32|
                self.arch_set(ai).contains(c) <==> (c < self.spec_components().len()
                    && records_key_set(records@).contains(
                    self.spec_components()[c as int].type_key,
                )) by {
                assert(self.arch_set(ai).contains(c) == sorted@.to_set().contains(c));
                assert(sorted@.to_set().contains(c) == sorted@.contains(c));
                assert(sorted@.contains(c) <==> idsg.contains(c));
                assert(idsg.contains(c) <==> (c < self.spec_components().len()
                    && records_key_set(records@).contains(
                    self.spec_components()[c as int].type_key,
                )));
            }
        }
        proof {
            lemma_ids_no_dup(sorted@, idsg);
            assert forall|c: u32|
                self.arch_set(new_id as int).contains(c) <==> idsg.contains(c) by {
                assert(self.arch_set(new_id as int).contains(c) == sorted@.to_set().contains(c));
                assert(sorted@.to_set().contains(c) == sorted@.contains(c));
            }
            assert forall|q: int|
                0 <= q < records@.len() implies self.has_comp_key(
                (#[trigger] records@[q]).type_key,
            ) by {
                assert(self.spec_components()[idsg[q] as int].type_key == records@[q].type_key);
            }
        }
        Ok((ArchetypeId(new_id), ids_copy))
    }

    /// The bytes of the component with type key `tk` on the entity `key`
    /// names, when the key is live and the type registered.
    pub open spec fn spec_component_of(self, key: EntityKey, tk: u64) -> Option<Seq<u8>> {
        match self.spec_entities().spec_get(key) {
            Some(e) => if self.has_comp_key(tk) {
                self.spec_tables()[e.archetype_id.0 as int].spec_comp_bytes(
                    self.spec_comp_id_of(tk) as u32,
                    e.row_id as int,
                )
            } else {
                None
            },
            None => None,
        }
    }

    /// The registry maps each registered component's key back to its id.
    /// The registry only grows, so records whose keys it already holds
    /// with their exact layouts stay acceptable forever.
    pub proof fn lemma_records_registered_stable(
        pre: Self,
        post: Self,
        records: Seq<ComponentRecord>,
    )
        requires
            pre.wf_components(),
            post.wf_components(),
            pre.records_registered(records),
            post.spec_components().len() >= pre.spec_components().len(),
            forall|i: int|
                0 <= i < pre.spec_components().len() ==> post.spec_components()[i]
                    == pre.spec_components()[i],
        ensures
            post.records_registered(records),
    {
        assert forall|q: int| 0 <= q < records.len() implies post.has_comp_key(
            (#[trigger] records[q]).type_key,
        ) && post.record_registerable(records[q]) by {
            let tk = records[q].type_key;
            assert(pre.has_comp_key(tk));
            let j = pre.spec_comp_id_of(tk);
            assert(0 <= j < pre.spec_components().len() && pre.spec_components()[j].type_key
                == tk);
            assert(post.spec_components()[j] == pre.spec_components()[j]);
            assert(post.has_comp_key(tk)) by {
                assert(0 <= j < post.spec_components().len() && post.spec_components()[
                    j
                ].type_key == tk);
            }
            let j2 = post.spec_comp_id_of(tk);
            assert(0 <= j2 < post.spec_components().len() && post.spec_components()[j2].type_key
                == tk);
            assert(j2 == j) by {
                if j2 != j {
                    if j2 < j {
                        assert(post.spec_components()[j2].type_key != post.spec_components()[
                            j
                        ].type_key);
                    } else {
                        assert(post.spec_components()[j].type_key != post.spec_components()[
                            j2
                        ].type_key);
                    }
                }
            }
            assert(pre.record_registerable(records[q]));
        }
    }

    pub proof fn lemma_comp_id_of_unique(self, c: u32)
        requires
            self.wf_components(),
            c < self.spec_components().len(),
        ensures
            self.has_comp_key(self.spec_components()[c as int].type_key),
            self.spec_comp_id_of(self.spec_components()[c as int].type_key) == c,
    {
        let tk = self.spec_components()[c as int].type_key;
        assert(self.has_comp_key(tk)) by {
            assert(0 <= c < self.spec_components().len() && self.spec_components()[
                c as int
            ].type_key == tk);
        }
        let j = self.spec_comp_id_of(tk);
        assert(0 <= j < self.spec_components().len() && self.spec_components()[j].type_key == tk);
        if j != c {
            if j < c {
                assert(self.spec_components()[j].type_key != self.spec_components()[
                    c as int
                ].type_key);
            } else {
                assert(self.spec_components()[c as int].type_key != self.spec_components()[
                    j
                ].type_key);
            }
        }
    }

    /// Store a new entity built from the given component values: resolve or
    /// create the archetype, allocate a key, and append one table row
    /// holding every record's bytes.  On success, each record's value reads
    /// back unchanged through the returned key, and every entity that was
    /// live before is untouched.
    #[verifier::loop_isolation(false)]
    pub fn add_entity(&mut self, records: &Vec<ComponentRecord>) -> (r: Result<
        EntityKey,
        EcsError,
    >)
        requires
            old(self).wf(),
            forall|q: int| 0 <= q < records@.len() ==> (#[trigger] records@[q]).wf(),
            old(self).spec_entities().slot_count() < u32::MAX,
        ensures
            final(self).wf(),
            final(self).spec_entities().slot_count() <= old(self).spec_entities().slot_count() + 1,
            match r {
                Ok(key) => {
                    &&& final(self).spec_entities().spec_get(key) is Some
                    &&& forall|q: int|
                        0 <= q < records@.len() ==> #[trigger] final(self).spec_component_of(
                            key,
                            records@[q].type_key,
                        ) == Some(records@[q].bytes@)
                    &&& forall|k2: EntityKey|
                        old(self).spec_entities().spec_get(k2) is Some ==> #[trigger] final(self).spec_entities().spec_get(k2) == old(self).spec_entities().spec_get(k2)
                    // the entity's archetype describes exactly the
                    // records' key set; a known archetype leaves the
                    // catalog as it was, a fresh one is the only addition
                    &&& final(self).spec_entities().spec_get(key)->0.archetype_id.0 < final(self).spec_archetypes().len()
                    &&& final(self).arch_set_is_for_records(
                        final(self).spec_entities().spec_get(key)->0.archetype_id.0 as int,
                        records@,
                    )
                    &&& final(self).spec_entities().spec_get(key)->0.archetype_id.0 < old(self).spec_archetypes().len() ==> final(self).spec_archetypes() == old(self).spec_archetypes()
                    &&& final(self).spec_entities().spec_get(key)->0.archetype_id.0 >= old(self).spec_archetypes().len() ==> final(self).spec_archetypes().len() == old(self).spec_archetypes().len() + 1
                },
                Err(_) => final(self).spec_entities() == old(self).spec_entities(),
            },
            // entities that were live before keep every component value
            forall|k2: EntityKey, tk: u64|
                old(self).spec_entities().spec_get(k2) is Some ==> #[trigger] final(self).spec_component_of(k2, tk) == old(self).spec_component_of(k2, tk),
            // at most one archetype is created, and existing catalog
            // entries keep their descriptions
            final(self).spec_archetypes().len() <= old(self).spec_archetypes().len() + 1,
            final(self).spec_archetypes().len() >= old(self).spec_archetypes().len(),
            final(self).spec_tables().len() == final(self).spec_archetypes().len(),
            forall|a: int|
                0 <= a < old(self).spec_archetypes().len() ==> final(self).spec_archetypes()[a]
                    == old(self).spec_archetypes()[a],
            final(self).spec_components().len() <= old(self).spec_components().len()
                + records@.len(),
            // failure leaves every existing archetype's data untouched
            r is Err ==> forall|a: int|
                0 <= a < old(self).spec_archetypes().len() ==> final(self).spec_archetypes()[a]
                    == old(self).spec_archetypes()[a] && #[trigger] final(self).spec_tables()[a]
                    == old(self).spec_tables()[a],
            // a duplicate-free, registry-consistent record list within the
            // id, layout and row budgets is always stored
            ({
                &&& old(self).records_registerable(records@)
                &&& records_distinct_keys(records@)
                &&& old(self).spec_components().len() + records@.len() <= u32::MAX
                &&& old(self).spec_archetypes().len() < u32::MAX
                &&& records@.len() * (MAX_COMPONENT_SIZE + MAX_COMPONENT_ALIGN)
                    + MAX_COMPONENT_ALIGN <= usize::MAX
                &&& forall|a: int|
                    0 <= a < old(self).spec_tables().len() ==> (#[trigger] old(
                        self,
                    ).spec_tables()[a]).spec_len() < u32::MAX
            }) ==> r is Ok,
    {
        let ghost can = old(self).records_registerable(records@) && records_distinct_keys(
            records@,
        ) && old(self).spec_components().len() + records@.len() <= u32::MAX && old(
            self,
        ).spec_archetypes().len() < u32::MAX && records@.len() * (MAX_COMPONENT_SIZE
            + MAX_COMPONENT_ALIGN) + MAX_COMPONENT_ALIGN <= usize::MAX && (forall|a: int|
            0 <= a < old(self).spec_tables().len() ==> (#[trigger] old(self).spec_tables()[
                a
            ]).spec_len() < u32::MAX);
        let (aid, ids) = match self.resolve_archetype(records) {
            Ok(p) => p,
            Err(e) => {
                proof {
                    if can {
                        assert(false);
                    }
                    Self::lemma_preserved_when_untouched(*old(self), *self);
                }
                return Err(e);
            },
        };
        let a_us = aid.0 as usize;
        let ghost s1 = *self;
        proof {
            assert(self.wf_archetype(a_us as int));
        }
        if self.tables[a_us].len() == u32::MAX {
            proof {
                if can {
                    if (aid.0 as int) < old(self).spec_archetypes().len() {
                        assert(self.spec_tables()[aid.0 as int] == old(self).spec_tables()[
                            aid.0 as int
                        ]);
                    }
                    assert(false);
                }
                Self::lemma_preserved_when_untouched(*old(self), *self);
            }
            return Err(EcsError::RowIdSpaceExhausted);
        }
        let (soa_row, aos_values) = self.build_rows(a_us, &ids, records);
        let row = self.tables[a_us].len();
        let key = self.entities.insert(Entity { archetype_id: aid, row_id: row });
        let ghost mid = *self;
        let mut table = empty_table();
        core::mem::swap(&mut self.tables[a_us], &mut table);
        let _ = table.insert(key, &soa_row, &aos_values);
        core::mem::swap(&mut self.tables[a_us], &mut table);
        proof {
            let a = a_us as int;
            let arch = self.spec_archetypes()[a];
            assert(self.spec_tables()[a].spec_entities() == mid.spec_tables()[
                a
            ].spec_entities().push(key));
            // catalog shape is untouched
            assert forall|a2: int| 0 <= a2 < self.spec_archetypes().len() implies #[trigger] self.wf_archetype(a2) by {
                assert(s1.wf_archetype(a2));
            }
            assert forall|a1: int, a2: int|
                0 <= a1 < a2 < self.spec_archetypes().len() implies self.arch_set(a1)
                != self.arch_set(a2) by {
                assert(s1.arch_set(a1) != s1.arch_set(a2));
            }
            // rows still point at live keys, including the new row
            assert forall|a2: int, r2: int|
                0 <= a2 < self.spec_tables().len() && 0 <= r2 < self.spec_tables()[
                a2
            ].spec_len() implies self.spec_entities().spec_get(
                #[trigger] self.spec_tables()[a2].spec_entities()[r2],
            ) == Some(Entity { archetype_id: ArchetypeId(a2 as u32), row_id: r2 as u32 }) by {
                if a2 == a && r2 == row {
                    assert(self.spec_tables()[a2].spec_entities()[r2] == key);
                } else {
                    let k2 = self.spec_tables()[a2].spec_entities()[r2];
                    assert(k2 == s1.spec_tables()[a2].spec_entities()[r2]);
                    assert(s1.spec_entities().spec_get(k2) == Some(
                        Entity { archetype_id: ArchetypeId(a2 as u32), row_id: r2 as u32 },
                    ));
                    assert(k2.id != key.id);
                }
            }
            // records still point at their rows, including the new one
            assert forall|i: int|
                0 <= i < self.spec_entities().slot_count() && (
                #[trigger] self.spec_entities().slots()[i]).entity is Some implies {
                let e = self.spec_entities().slots()[i].entity->0;
                &&& e.archetype_id.0 < self.spec_tables().len()
                &&& e.row_id < self.spec_tables()[e.archetype_id.0 as int].spec_len()
                &&& self.spec_tables()[e.archetype_id.0 as int].spec_entities()[e.row_id as int]
                    == (EntityKey { id: i as u32, generation: self.spec_entities().gen_of(i) })
            } by {
                if i == key.id {
                } else {
                    assert(i < s1.spec_entities().slot_count() && s1.spec_entities().slots()[i]
                        == self.spec_entities().slots()[i]);
                }
            }
            // the new entity's components read back as given
            assert forall|q: int|
                0 <= q < records@.len() implies #[trigger] self.spec_component_of(
                key,
                records@[q].type_key,
            ) == Some(records@[q].bytes@) by {
                let cid = ids@[q];
                self.lemma_comp_id_of_unique(cid);
                assert(self.spec_entities().spec_get(key) == Some(
                    Entity { archetype_id: aid, row_id: row },
                ));
                let table_post = self.spec_tables()[a];
                assert(self.arch_set(a).contains(cid)) by {
                    assert(ids@.contains(cid)) by {
                        assert(ids@[q] == cid);
                    }
                }
                assert(arch.soa_comp_ids@.contains(cid) || arch.aos_comp_ids@.contains(cid));
                if self.spec_components()[cid as int].storage != StorageTypes::TableAoS {
                    // routed columnar
                    assert(arch.soa_comp_ids@.contains(cid)) by {
                        if arch.aos_comp_ids@.contains(cid) {
                            let jj = choose|jj: int|
                                0 <= jj < arch.aos_comp_ids@.len() && arch.aos_comp_ids@[jj]
                                    == cid;
                            assert(self.spec_components()[cid as int].storage
                                == StorageTypes::TableAoS);
                        }
                    }
                    let j = choose|j: int|
                        0 <= j < arch.soa_comp_ids@.len() && arch.soa_comp_ids@[j] == cid;
                    crate::sorted_vec::lemma_seq_index_of_unique(table_post.soa_ids(), cid, j);
                    assert(table_post.soa_ids().contains(cid)) by {
                        assert(table_post.soa_ids()[j] == cid);
                    }
                    assert(table_post.soa().col(j) == mid.spec_tables()[a].soa().col(j).push(
                        soa_row@[j]@,
                    ));
                    assert(mid.spec_tables()[a].soa().col(j).len() == row) by {
                        mid.spec_tables()[a].soa().lemma_wf_col(j);
                    }
                    assert(row_matches(ids@, records@, arch.soa_comp_ids@[j], soa_row@[j]@));
                    let q2 = choose|q2: int|
                        0 <= q2 < ids@.len() && ids@[q2] == arch.soa_comp_ids@[j] && soa_row@[j]@
                            == records@[q2].bytes@;
                    assert(q2 == q) by {
                        if q2 != q {
                            assert(ids@[q2] != ids@[q]);
                        }
                    }
                    assert(table_post.spec_comp_bytes(cid, row as int) == Some(
                        records@[q].bytes@,
                    ));
                } else {
                    // routed packed
                    assert(arch.aos_comp_ids@.contains(cid)) by {
                        if arch.soa_comp_ids@.contains(cid) {
                            let jj = choose|jj: int|
                                0 <= jj < arch.soa_comp_ids@.len() && arch.soa_comp_ids@[jj]
                                    == cid;
                            assert(self.spec_components()[cid as int].storage
                                != StorageTypes::TableAoS);
                        }
                    }
                    assert(!arch.soa_comp_ids@.contains(cid)) by {
                        if arch.soa_comp_ids@.contains(cid) {
                            let jj = choose|jj: int|
                                0 <= jj < arch.soa_comp_ids@.len() && arch.soa_comp_ids@[jj]
                                    == cid;
                        }
                    }
                    let j = choose|j: int|
                        0 <= j < arch.aos_comp_ids@.len() && arch.aos_comp_ids@[j] == cid;
                    crate::sorted_vec::lemma_seq_index_of_unique(table_post.aos_ids(), cid, j);
                    assert(table_post.aos_ids().contains(cid)) by {
                        assert(table_post.aos_ids()[j] == cid);
                    }
                    assert(!table_post.soa_ids().contains(cid));
                    assert(table_post.aos().rows().len() == row + 1) by {
                        mid.spec_tables()[a].aos().lemma_wf_layout();
                        table_post.aos().lemma_wf_layout();
                        assert(table_post.spec_len() == mid.spec_tables()[a].spec_len() + 1);
                    }
                    assert(table_post.aos().rows()[row as int] == table_post.aos().rows().last());
                    assert(table_post.aos().rows().last().subrange(
                        table_post.aos().metas()[j].ptr_offset as int,
                        table_post.aos().metas()[j].ptr_offset + table_post.aos().metas()[j].size,
                    ) == aos_values@[j]@);
                    assert(row_matches(ids@, records@, arch.aos_comp_ids@[j], aos_values@[j]@));
                    let q2 = choose|q2: int|
                        0 <= q2 < ids@.len() && ids@[q2] == arch.aos_comp_ids@[j] && aos_values@[
                            j
                        ]@ == records@[q2].bytes@;
                    assert(q2 == q) by {
                        if q2 != q {
                            assert(ids@[q2] != ids@[q]);
                        }
                    }
                    assert(table_post.spec_comp_bytes(cid, row as int) == Some(
                        records@[q].bytes@,
                    ));
                }
            }
            // entities that were live before are untouched
            assert forall|k2: EntityKey|
                old(self).spec_entities().spec_get(k2) is Some implies #[trigger] self.spec_entities().spec_get(k2) == old(self).spec_entities().spec_get(k2) by {
                assert(k2.id != key.id);
            }
            // ... and keep every component value
            assert(self.spec_components() == s1.spec_components());
            assert forall|k2: EntityKey, tk: u64|
                old(self).spec_entities().spec_get(k2) is Some implies #[trigger] self.spec_component_of(k2, tk) == old(self).spec_component_of(k2, tk) by {
                let e2 = old(self).spec_entities().spec_get(k2)->0;
                let a2 = e2.archetype_id.0 as int;
                assert(old(self).spec_entities().slots()[k2.id as int].entity == Some(e2));
                assert(k2.id != key.id);
                assert(self.spec_entities().spec_get(k2) == old(self).spec_entities().spec_get(
                    k2,
                ));
                let r2 = e2.row_id as int;
                if a2 == a {
                    assert(mid.spec_tables()[a] == old(self).spec_tables()[a]);
                    assert(r2 < mid.spec_tables()[a].spec_len());
                    mid.spec_tables()[a].soa().lemma_wf_col_all();
                    mid.spec_tables()[a].aos().lemma_wf_layout();
                    assert forall|j: int|
                        0 <= j < mid.spec_tables()[a].soa_ids().len()
                            implies #[trigger] self.spec_tables()[a].soa().col(j)[r2]
                        == mid.spec_tables()[a].soa().col(j)[r2] by {
                        assert(self.spec_tables()[a].soa().col(j) == mid.spec_tables()[
                            a
                        ].soa().col(j).push(soa_row@[j]@));
                        assert(mid.spec_tables()[a].soa().col(j).len() == mid.spec_tables()[
                            a
                        ].spec_len());
                    }
                    assert(self.spec_tables()[a].aos().rows()[r2] == mid.spec_tables()[
                        a
                    ].aos().rows()[r2]);
                    crate::table_storage::lemma_comp_bytes_rows_same(
                        mid.spec_tables()[a],
                        self.spec_tables()[a],
                        r2,
                    );
                } else {
                    assert(self.spec_tables()[a2] == old(self).spec_tables()[a2]);
                }
                Self::lemma_component_reads_stable(*old(self), *self, k2, tk);
            }
            // the new entity's archetype keeps its description
            assert(self.spec_entities().spec_get(key) == Some(
                Entity { archetype_id: aid, row_id: row },
            ));
            assert(self.spec_archetypes() == s1.spec_archetypes());
            assert(self.arch_set_is_for_records(aid.0 as int, records@)) by {
                assert forall|c: u32| self.arch_set(aid.0 as int).contains(c) <==> (c
                    < self.spec_components().len() && records_key_set(records@).contains(
                    self.spec_components()[c as int].type_key,
                )) by {
                    assert(s1.arch_set_is_for_records(aid.0 as int, records@));
                    assert(s1.arch_set(aid.0 as int).contains(c) <==> (c
                        < s1.spec_components().len() && records_key_set(records@).contains(
                        s1.spec_components()[c as int].type_key,
                    )));
                    assert(self.arch_set(aid.0 as int) == s1.arch_set(aid.0 as int));
                }
            }
            if (aid.0 as int) < old(self).spec_archetypes().len() {
                assert(self.spec_archetypes() =~= old(self).spec_archetypes());
            }
        }
        Ok(key)
    }

    /// Build the per-column byte rows for one entity from its records:
    /// entry `j` of each row is the bytes of the record whose component id
    /// is the table's `j`-th id.
    #[verifier::loop_isolation(false)]
    fn build_rows(&self, a_us: usize, ids: &Vec<u32>, records: &Vec<ComponentRecord>) -> (r: (
        Vec<Vec<u8>>,
        Vec<Vec<u8>>,
    ))
        requires
            self.wf(),
            a_us < self.spec_archetypes().len(),
            ids@.len() == records@.len(),
            no_duplicates(ids@),
            forall|q: int| 0 <= q < records@.len() ==> (#[trigger] records@[q]).wf(),
            forall|q: int|
                0 <= q < ids@.len() ==> {
                    &&& #[trigger] ids@[q] < self.spec_components().len()
                    &&& self.spec_components()[ids@[q] as int].size == records@[q].size
                },
            forall|c: u32| self.arch_set(a_us as int).contains(c) ==> ids@.contains(c),
        ensures
            ({
                let arch = self.spec_archetypes()[a_us as int];
                let table = self.spec_tables()[a_us as int];
                &&& r.0@.len() == arch.soa_comp_ids@.len()
                &&& r.1@.len() == arch.aos_comp_ids@.len()
                &&& forall|j: int|
                    0 <= j < r.0@.len() ==> (#[trigger] r.0@[j])@.len() == table.soa().col_elem_size(j)
                &&& forall|j: int|
                    0 <= j < r.1@.len() ==> (#[trigger] r.1@[j])@.len() == table.aos().metas()[j].size
                &&& forall|j: int|
                    0 <= j < r.0@.len() ==> row_matches(
                        ids@,
                        records@,
                        arch.soa_comp_ids@[j],
                        (#[trigger] r.0@[j])@,
                    )
                &&& forall|j: int|
                    0 <= j < r.1@.len() ==> row_matches(
                        ids@,
                        records@,
                        arch.aos_comp_ids@[j],
                        (#[trigger] r.1@[j])@,
                    )
            }),
    {
        proof {
            assert(self.wf_archetype(a_us as int));
        }
        let ghost arch = self.spec_archetypes()[a_us as int];
        let mut soa_row: Vec<Vec<u8>> = Vec::new();
        let nsoa = self.archetypes[a_us].soa_comp_ids.len();
        let mut j: usize = 0;
        while j < nsoa
            invariant
                soa_row@.len() == j,
                j <= nsoa,
                forall|j2: int|
                    0 <= j2 < j ==> (#[trigger] soa_row@[j2])@.len() == self.spec_tables()[
                        a_us as int
                    ].soa().col_elem_size(j2),
                forall|j2: int|
                    0 <= j2 < j ==> row_matches(
                        ids@,
                        records@,
                        arch.soa_comp_ids@[j2],
                        (#[trigger] soa_row@[j2])@,
                    ),
            decreases nsoa - j,
        {
            let cid = self.archetypes[a_us].soa_comp_ids.index(j);
            proof {
                assert(self.arch_set(a_us as int).contains(cid)) by {
                    assert(arch.soa_comp_ids@.contains(cid)) by {
                        assert(arch.soa_comp_ids@[j as int] == cid);
                    }
                }
            }
            let q = match find_in_ids(ids, cid) {
                Some(q) => q,
                None => {
                    proof {
                        assert(ids@.contains(cid));
                        assert(false);
                    }
                    vstd::pervasive::unreached()
                },
            };
            soa_row.push(crate::thin_blob_vec::clone_bytes(&records[q].bytes));
            proof {
                let jj = j as int;
                assert(row_matches(ids@, records@, arch.soa_comp_ids@[jj], soa_row@[jj]@)) by {
                    assert(0 <= (q as int) < ids@.len() && ids@[q as int] == arch.soa_comp_ids@[
                        jj
                    ] && soa_row@[jj]@ == records@[q as int].bytes@);
                }
                assert(soa_row@[jj]@.len() == self.spec_tables()[a_us as int].soa().col_elem_size(
                    jj,
                )) by {
                    assert(records@[q as int].wf());
                    assert(ids@[q as int] < self.spec_components().len());
                }
            }
            j = j + 1;
        }
        let mut aos_values: Vec<Vec<u8>> = Vec::new();
        let naos = self.archetypes[a_us].aos_comp_ids.len();
        let mut j2: usize = 0;
        while j2 < naos
            invariant
                aos_values@.len() == j2,
                j2 <= naos,
                forall|j3: int|
                    0 <= j3 < j2 ==> (#[trigger] aos_values@[j3])@.len() == self.spec_tables()[
                        a_us as int
                    ].aos().metas()[j3].size,
                forall|j3: int|
                    0 <= j3 < j2 ==> row_matches(
                        ids@,
                        records@,
                        arch.aos_comp_ids@[j3],
                        (#[trigger] aos_values@[j3])@,
                    ),
            decreases naos - j2,
        {
            let cid = self.archetypes[a_us].aos_comp_ids.index(j2);
            proof {
                assert(self.arch_set(a_us as int).contains(cid)) by {
                    assert(arch.aos_comp_ids@.contains(cid)) by {
                        assert(arch.aos_comp_ids@[j2 as int] == cid);
                    }
                }
            }
            let q = match find_in_ids(ids, cid) {
                Some(q) => q,
                None => {
                    proof {
                        assert(ids@.contains(cid));
                        assert(false);
                    }
                    vstd::pervasive::unreached()
                },
            };
            aos_values.push(crate::thin_blob_vec::clone_bytes(&records[q].bytes));
            proof {
                let jj = j2 as int;
                assert(row_matches(ids@, records@, arch.aos_comp_ids@[jj], aos_values@[jj]@)) by {
                    assert(0 <= (q as int) < ids@.len() && ids@[q as int] == arch.aos_comp_ids@[
                        jj
                    ] && aos_values@[jj]@ == records@[q as int].bytes@);
                }
                assert(aos_values@[jj]@.len() == self.spec_tables()[a_us as int].aos().metas()[
                    jj
                ].size) by {
                    assert(records@[q as int].wf());
                    assert(ids@[q as int] < self.spec_components().len());
                }
            }
            j2 = j2 + 1;
        }
        (soa_row, aos_values)
    }

    /// Store an entity under a key previously handed out by `reserve`.
    /// When the reservation is no longer fillable — the slot was reused or
    /// never materialized — nothing is stored and the key comes back as a
    /// stale handle, exactly as a deferred spawn behaves after its target
    /// was overtaken.
    #[verifier::loop_isolation(false)]
    pub fn add_entity_with_reserved_key(&mut self, key: EntityKey, records: &Vec<ComponentRecord>)
        -> (r: Result<EntityKey, EcsError>)
        requires
            old(self).wf(),
            forall|q: int| 0 <= q < records@.len() ==> (#[trigger] records@[q]).wf(),
        ensures
            final(self).wf(),
            match r {
                Ok(k) => {
                    &&& k == key
                    &&& old(self).spec_entities().spec_can_fill(key) ==> {
                        &&& final(self).spec_entities().spec_get(key) is Some
                        &&& forall|q: int|
                            0 <= q < records@.len() ==> #[trigger] final(self).spec_component_of(
                                key,
                                records@[q].type_key,
                            ) == Some(records@[q].bytes@)
                    }
                    &&& !old(self).spec_entities().spec_can_fill(key) ==> final(self).spec_entities() == old(self).spec_entities()
                    &&& forall|k2: EntityKey|
                        old(self).spec_entities().spec_get(k2) is Some ==> #[trigger] final(self).spec_entities().spec_get(k2) == old(self).spec_entities().spec_get(k2)
                    // no key but the reservation comes alive
                    &&& forall|k2: EntityKey|
                        k2 != key && old(self).spec_entities().spec_get(k2) is None
                            ==> #[trigger] final(self).spec_entities().spec_get(k2) is None
                    // every other fillable reservation stays fillable
                    &&& forall|k2: EntityKey|
                        k2 != key && old(self).spec_entities().spec_can_fill(k2)
                            ==> #[trigger] final(self).spec_entities().spec_can_fill(k2)
                },
                Err(_) => final(self).spec_entities() == old(self).spec_entities(),
            },
            // entities that were live before keep every component value
            forall|k2: EntityKey, tk: u64|
                old(self).spec_entities().spec_get(k2) is Some ==> #[trigger] final(self).spec_component_of(k2, tk) == old(self).spec_component_of(k2, tk),
            // at most one archetype is created, and existing catalog
            // entries keep their descriptions
            final(self).spec_archetypes().len() <= old(self).spec_archetypes().len() + 1,
            final(self).spec_archetypes().len() >= old(self).spec_archetypes().len(),
            final(self).spec_tables().len() == final(self).spec_archetypes().len(),
            forall|a: int|
                0 <= a < old(self).spec_archetypes().len() ==> final(self).spec_archetypes()[a]
                    == old(self).spec_archetypes()[a],
            final(self).spec_components().len() <= old(self).spec_components().len()
                + records@.len(),
            final(self).spec_components().len() >= old(self).spec_components().len(),
            forall|i: int|
                0 <= i < old(self).spec_components().len() ==> final(self).spec_components()[i]
                    == old(self).spec_components()[i],
            // each existing table gains at most one row; a fresh one holds
            // at most one
            forall|a: int|
                0 <= a < old(self).spec_tables().len() ==> (#[trigger] final(self).spec_tables()[
                    a
                ]).spec_len() <= old(self).spec_tables()[a].spec_len() + 1,
            forall|a: int|
                old(self).spec_tables().len() <= a < final(self).spec_tables().len() ==> (
                #[trigger] final(self).spec_tables()[a]).spec_len() <= 1,
            // failure leaves every existing archetype's data untouched
            r is Err ==> forall|a: int|
                0 <= a < old(self).spec_archetypes().len() ==> final(self).spec_archetypes()[a]
                    == old(self).spec_archetypes()[a] && #[trigger] final(self).spec_tables()[a]
                    == old(self).spec_tables()[a],
            // within the id, layout and row budgets a deferred spawn never
            // errors: a valid reservation is populated, an overtaken one is
            // a quiet no-op
            ({
                &&& old(self).records_registerable(records@)
                &&& records_distinct_keys(records@)
                &&& old(self).spec_components().len() + records@.len() <= u32::MAX
                &&& old(self).spec_archetypes().len() < u32::MAX
                &&& records@.len() * (MAX_COMPONENT_SIZE + MAX_COMPONENT_ALIGN)
                    + MAX_COMPONENT_ALIGN <= usize::MAX
                &&& forall|a: int|
                    0 <= a < old(self).spec_tables().len() ==> (#[trigger] old(
                        self,
                    ).spec_tables()[a]).spec_len() < u32::MAX
            }) ==> r is Ok,
    {
        let ghost can = old(self).records_registerable(records@) && records_distinct_keys(
            records@,
        ) && old(self).spec_components().len() + records@.len() <= u32::MAX && old(
            self,
        ).spec_archetypes().len() < u32::MAX && records@.len() * (MAX_COMPONENT_SIZE
            + MAX_COMPONENT_ALIGN) + MAX_COMPONENT_ALIGN <= usize::MAX && (forall|a: int|
            0 <= a < old(self).spec_tables().len() ==> (#[trigger] old(self).spec_tables()[
                a
            ]).spec_len() < u32::MAX);
        let (aid, ids) = match self.resolve_archetype(records) {
            Ok(p) => p,
            Err(e) => {
                proof {
                    if can {
                        assert(false);
                    }
                    Self::lemma_preserved_when_untouched(*old(self), *self);
                }
                return Err(e);
            },
        };
        let a_us = aid.0 as usize;
        let ghost s1 = *self;
        proof {
            assert(self.wf_archetype(a_us as int));
        }
        if !self.entities.can_fill(key) {
            proof {
                Self::lemma_preserved_when_untouched(*old(self), *self);
            }
            return Ok(key);
        }
        if self.tables[a_us].len() == u32::MAX {
            proof {
                if can {
                    if (aid.0 as int) < old(self).spec_archetypes().len() {
                        assert(self.spec_tables()[aid.0 as int] == old(self).spec_tables()[
                            aid.0 as int
                        ]);
                    }
                    assert(false);
                }
                Self::lemma_preserved_when_untouched(*old(self), *self);
            }
            return Err(EcsError::RowIdSpaceExhausted);
        }
        let (soa_row, aos_values) = self.build_rows(a_us, &ids, records);
        let row = self.tables[a_us].len();
        self.entities.insert_with_reserved_key(key, Entity { archetype_id: aid, row_id: row });
        let ghost mid = *self;
        let mut table = empty_table();
        core::mem::swap(&mut self.tables[a_us], &mut table);
        let _ = table.insert(key, &soa_row, &aos_values);
        core::mem::swap(&mut self.tables[a_us], &mut table);
        proof {
            let a = a_us as int;
            let arch = self.spec_archetypes()[a];
            assert(self.spec_entities().spec_get(key) == Some(
                Entity { archetype_id: aid, row_id: row },
            ));
            assert(self.spec_tables()[a].spec_entities() == mid.spec_tables()[
                a
            ].spec_entities().push(key));
            assert forall|a2: int| 0 <= a2 < self.spec_archetypes().len() implies #[trigger] self.wf_archetype(a2) by {
                assert(s1.wf_archetype(a2));
            }
            assert forall|a1: int, a2: int|
                0 <= a1 < a2 < self.spec_archetypes().len() implies self.arch_set(a1)
                != self.arch_set(a2) by {
                assert(s1.arch_set(a1) != s1.arch_set(a2));
            }
            assert forall|a2: int, r2: int|
                0 <= a2 < self.spec_tables().len() && 0 <= r2 < self.spec_tables()[
                a2
            ].spec_len() implies self.spec_entities().spec_get(
                #[trigger] self.spec_tables()[a2].spec_entities()[r2],
            ) == Some(Entity { archetype_id: ArchetypeId(a2 as u32), row_id: r2 as u32 }) by {
                if a2 == a && r2 == row {
                    assert(self.spec_tables()[a2].spec_entities()[r2] == key);
                } else {
                    let k2 = self.spec_tables()[a2].spec_entities()[r2];
                    assert(k2 == s1.spec_tables()[a2].spec_entities()[r2]);
                    assert(s1.spec_entities().spec_get(k2) == Some(
                        Entity { archetype_id: ArchetypeId(a2 as u32), row_id: r2 as u32 },
                    ));
                    assert(k2.id != key.id);
                }
            }
            assert forall|i: int|
                0 <= i < self.spec_entities().slot_count() && (
                #[trigger] self.spec_entities().slots()[i]).entity is Some implies {
                let e = self.spec_entities().slots()[i].entity->0;
                &&& e.archetype_id.0 < self.spec_tables().len()
                &&& e.row_id < self.spec_tables()[e.archetype_id.0 as int].spec_len()
                &&& self.spec_tables()[e.archetype_id.0 as int].spec_entities()[e.row_id as int]
                    == (EntityKey { id: i as u32, generation: self.spec_entities().gen_of(i) })
            } by {
                if i == key.id {
                } else {
                    assert(i < s1.spec_entities().slot_count() && s1.spec_entities().slots()[i]
                        == self.spec_entities().slots()[i]);
                }
            }
            assert forall|q: int|
                0 <= q < records@.len() implies #[trigger] self.spec_component_of(
                key,
                records@[q].type_key,
            ) == Some(records@[q].bytes@) by {
                let cid = ids@[q];
                self.lemma_comp_id_of_unique(cid);
                let table_post = self.spec_tables()[a];
                assert(self.arch_set(a).contains(cid)) by {
                    assert(ids@.contains(cid)) by {
                        assert(ids@[q] == cid);
                    }
                }
                assert(arch.soa_comp_ids@.contains(cid) || arch.aos_comp_ids@.contains(cid));
                if self.spec_components()[cid as int].storage != StorageTypes::TableAoS {
                    assert(arch.soa_comp_ids@.contains(cid)) by {
                        if arch.aos_comp_ids@.contains(cid) {
                            let jj = choose|jj: int|
                                0 <= jj < arch.aos_comp_ids@.len() && arch.aos_comp_ids@[jj]
                                    == cid;
                            assert(self.spec_components()[cid as int].storage
                                == StorageTypes::TableAoS);
                        }
                    }
                    let j = choose|j: int|
                        0 <= j < arch.soa_comp_ids@.len() && arch.soa_comp_ids@[j] == cid;
                    crate::sorted_vec::lemma_seq_index_of_unique(table_post.soa_ids(), cid, j);
                    assert(table_post.soa_ids().contains(cid)) by {
                        assert(table_post.soa_ids()[j] == cid);
                    }
                    assert(table_post.soa().col(j) == mid.spec_tables()[a].soa().col(j).push(
                        soa_row@[j]@,
                    ));
                    assert(mid.spec_tables()[a].soa().col(j).len() == row) by {
                        mid.spec_tables()[a].soa().lemma_wf_col(j);
                    }
                    assert(row_matches(ids@, records@, arch.soa_comp_ids@[j], soa_row@[j]@));
                    let q2 = choose|q2: int|
                        0 <= q2 < ids@.len() && ids@[q2] == arch.soa_comp_ids@[j] && soa_row@[j]@
                            == records@[q2].bytes@;
                    assert(q2 == q) by {
                        if q2 != q {
                            assert(ids@[q2] != ids@[q]);
                        }
                    }
                    assert(table_post.spec_comp_bytes(cid, row as int) == Some(
                        records@[q].bytes@,
                    ));
                } else {
                    assert(arch.aos_comp_ids@.contains(cid)) by {
                        if arch.soa_comp_ids@.contains(cid) {
                            let jj = choose|jj: int|
                                0 <= jj < arch.soa_comp_ids@.len() && arch.soa_comp_ids@[jj]
                                    == cid;
                            assert(self.spec_components()[cid as int].storage
                                != StorageTypes::TableAoS);
                        }
                    }
                    assert(!arch.soa_comp_ids@.contains(cid)) by {
                        if arch.soa_comp_ids@.contains(cid) {
                            let jj = choose|jj: int|
                                0 <= jj < arch.soa_comp_ids@.len() && arch.soa_comp_ids@[jj]
                                    == cid;
                        }
                    }
                    let j = choose|j: int|
                        0 <= j < arch.aos_comp_ids@.len() && arch.aos_comp_ids@[j] == cid;
                    crate::sorted_vec::lemma_seq_index_of_unique(table_post.aos_ids(), cid, j);
                    assert(table_post.aos_ids().contains(cid)) by {
                        assert(table_post.aos_ids()[j] == cid);
                    }
                    assert(!table_post.soa_ids().contains(cid));
                    assert(table_post.aos().rows().len() == row + 1) by {
                        mid.spec_tables()[a].aos().lemma_wf_layout();
                        table_post.aos().lemma_wf_layout();
                        assert(table_post.spec_len() == mid.spec_tables()[a].spec_len() + 1);
                    }
                    assert(table_post.aos().rows()[row as int] == table_post.aos().rows().last());
                    assert(table_post.aos().rows().last().subrange(
                        table_post.aos().metas()[j].ptr_offset as int,
                        table_post.aos().metas()[j].ptr_offset + table_post.aos().metas()[j].size,
                    ) == aos_values@[j]@);
                    assert(row_matches(ids@, records@, arch.aos_comp_ids@[j], aos_values@[j]@));
                    let q2 = choose|q2: int|
                        0 <= q2 < ids@.len() && ids@[q2] == arch.aos_comp_ids@[j] && aos_values@[
                            j
                        ]@ == records@[q2].bytes@;
                    assert(q2 == q) by {
                        if q2 != q {
                            assert(ids@[q2] != ids@[q]);
                        }
                    }
                    assert(table_post.spec_comp_bytes(cid, row as int) == Some(
                        records@[q].bytes@,
                    ));
                }
            }
            assert forall|k2: EntityKey|
                old(self).spec_entities().spec_get(k2) is Some implies #[trigger] self.spec_entities().spec_get(k2) == old(self).spec_entities().spec_get(k2) by {
                assert(k2.id != key.id);
            }
            // ... and keep every component value
            assert(self.spec_components() == s1.spec_components());
            assert forall|k2: EntityKey, tk: u64|
                old(self).spec_entities().spec_get(k2) is Some implies #[trigger] self.spec_component_of(k2, tk) == old(self).spec_component_of(k2, tk) by {
                let e2 = old(self).spec_entities().spec_get(k2)->0;
                let a2 = e2.archetype_id.0 as int;
                assert(old(self).spec_entities().slots()[k2.id as int].entity == Some(e2));
                assert(k2.id != key.id);
                assert(self.spec_entities().spec_get(k2) == old(self).spec_entities().spec_get(
                    k2,
                ));
                let r2 = e2.row_id as int;
                if a2 == a {
                    assert(mid.spec_tables()[a] == old(self).spec_tables()[a]);
                    assert(r2 < mid.spec_tables()[a].spec_len());
                    mid.spec_tables()[a].soa().lemma_wf_col_all();
                    mid.spec_tables()[a].aos().lemma_wf_layout();
                    assert forall|j: int|
                        0 <= j < mid.spec_tables()[a].soa_ids().len()
                            implies #[trigger] self.spec_tables()[a].soa().col(j)[r2]
                        == mid.spec_tables()[a].soa().col(j)[r2] by {
                        assert(self.spec_tables()[a].soa().col(j) == mid.spec_tables()[
                            a
                        ].soa().col(j).push(soa_row@[j]@));
                        assert(mid.spec_tables()[a].soa().col(j).len() == mid.spec_tables()[
                            a
                        ].spec_len());
                    }
                    assert(self.spec_tables()[a].aos().rows()[r2] == mid.spec_tables()[
                        a
                    ].aos().rows()[r2]);
                    crate::table_storage::lemma_comp_bytes_rows_same(
                        mid.spec_tables()[a],
                        self.spec_tables()[a],
                        r2,
                    );
                } else {
                    assert(self.spec_tables()[a2] == old(self).spec_tables()[a2]);
                }
                Self::lemma_component_reads_stable(*old(self), *self, k2, tk);
            }
        }
        Ok(key)
    }

    /// Store a batch of entities, one per record list, in order.  The first
    /// failure aborts the batch, leaving the entities stored so far in
    /// place; entities that were live before the batch keep all their data
    /// either way.
    #[verifier::loop_isolation(false)]
    pub fn add_entities_batch(&mut self, inputs: &Vec<Vec<ComponentRecord>>) -> (r: Result<
        Vec<EntityKey>,
        EcsError,
    >)
        requires
            old(self).wf(),
            forall|b: int, q: int|
                0 <= b < inputs@.len() && 0 <= q < inputs@[b]@.len() ==> (#[trigger] inputs@[b]@[
                    q
                ]).wf(),
            old(self).spec_entities().slot_count() + inputs@.len() <= u32::MAX,
        ensures
            final(self).wf(),
            forall|k2: EntityKey, tk: u64|
                old(self).spec_entities().spec_get(k2) is Some ==> #[trigger] final(self).spec_component_of(k2, tk) == old(self).spec_component_of(k2, tk),
            forall|k2: EntityKey|
                old(self).spec_entities().spec_get(k2) is Some ==> #[trigger] final(self).spec_entities().spec_get(k2) == old(self).spec_entities().spec_get(k2),
            match r {
                Ok(keys) => {
                    &&& keys@.len() == inputs@.len()
                    &&& forall|b: int|
                        0 <= b < keys@.len() ==> final(self).spec_entities().spec_get(
                            #[trigger] keys@[b],
                        ) is Some
                    // every stored entity's values read back unchanged
                    &&& forall|b: int, q: int|
                        0 <= b < keys@.len() && 0 <= q < inputs@[b]@.len()
                            ==> #[trigger] final(self).spec_component_of(
                            keys@[b],
                            inputs@[b]@[q].type_key,
                        ) == Some(inputs@[b]@[q].bytes@)
                },
                Err(_) => true,
            },
    {
        let mut keys: Vec<EntityKey> = Vec::new();
        let mut b: usize = 0;
        while b < inputs.len()
            invariant
                self.wf(),
                b <= inputs@.len(),
                keys@.len() == b,
                self.spec_entities().slot_count() <= old(self).spec_entities().slot_count() + b,
                forall|k2: EntityKey|
                    old(self).spec_entities().spec_get(k2) is Some ==> #[trigger] self.spec_entities().spec_get(k2) == old(self).spec_entities().spec_get(k2),
                forall|k2: EntityKey, tk: u64|
                    old(self).spec_entities().spec_get(k2) is Some ==> #[trigger] self.spec_component_of(k2, tk) == old(self).spec_component_of(k2, tk),
                forall|b2: int|
                    0 <= b2 < b ==> self.spec_entities().spec_get(#[trigger] keys@[b2]) is Some,
                forall|b2: int, q: int|
                    0 <= b2 < b && 0 <= q < inputs@[b2]@.len()
                        ==> #[trigger] self.spec_component_of(keys@[b2], inputs@[b2]@[q].type_key)
                        == Some(inputs@[b2]@[q].bytes@),
            decreases inputs@.len() - b,
        {
            let ghost pre = *self;
            let key = match self.add_entity(&inputs[b]) {
                Ok(k) => k,
                Err(e) => {
                    return Err(e);
                },
            };
            keys.push(key);
            proof {
                assert forall|k2: EntityKey, tk: u64|
                    old(self).spec_entities().spec_get(k2) is Some
                        implies #[trigger] self.spec_component_of(k2, tk) == old(self).spec_component_of(k2, tk) by {
                    assert(pre.spec_entities().spec_get(k2) is Some);
                    assert(self.spec_component_of(k2, tk) == pre.spec_component_of(k2, tk));
                }
                assert forall|b2: int, q: int|
                    0 <= b2 < b + 1 && 0 <= q < inputs@[b2]@.len()
                        implies #[trigger] self.spec_component_of(
                    keys@[b2],
                    inputs@[b2]@[q].type_key,
                ) == Some(inputs@[b2]@[q].bytes@) by {
                    if b2 < b {
                        assert(pre.spec_entities().spec_get(keys@[b2]) is Some);
                        assert(self.spec_component_of(keys@[b2], inputs@[b2]@[q].type_key)
                            == pre.spec_component_of(keys@[b2], inputs@[b2]@[q].type_key));
                    } else {
                        assert(keys@[b2] == key);
                    }
                }
            }
            b = b + 1;
        }
        Ok(keys)
    }

    /// The record behind a key: which archetype and row hold its data.
    pub fn get(&self, key: EntityKey) -> (r: Option<&Entity>)
        ensures
            match r {
                Some(e) => self.spec_entities().spec_get(key) == Some(*e),
                None => self.spec_entities().spec_get(key) is None,
            },
    {
        self.entities.get(key)
    }

    /// Copy out the bytes of the component registered under `type_key` on
    /// the entity `key` names.
    pub fn get_component_bytes(&self, key: EntityKey, type_key: u64) -> (r: Option<Vec<u8>>)
        requires
            self.wf(),
        ensures
            match r {
                Some(b) => self.spec_component_of(key, type_key) == Some(b@),
                None => self.spec_component_of(key, type_key) is None,
            },
    {
        let e = match self.entities.get(key) {
            Some(e) => *e,
            None => {
                return None;
            },
        };
        proof {
            assert(self.spec_entities().slots()[key.id as int].entity == Some(e));
            assert(self.wf_archetype(e.archetype_id.0 as int));
        }
        let cid = match self.comp_id_for_key(type_key) {
            Some(c) => c,
            None => {
                return None;
            },
        };
        self.tables[e.archetype_id.0 as usize].get_comp_bytes(cid, e.row_id)
    }

    /// Look up the dense id registered for a type key.
    fn comp_id_for_key(&self, type_key: u64) -> (r: Option<u32>)
        requires
            self.wf(),
        ensures
            match r {
                Some(c) => self.has_comp_key(type_key) && c == self.spec_comp_id_of(type_key),
                None => !self.has_comp_key(type_key),
            },
    {
        let mut j: usize = 0;
        while j < self.components.len()
            invariant
                self.wf(),
                j <= self.spec_components().len(),
                forall|i: int|
                    0 <= i < j ==> (#[trigger] self.spec_components()[i]).type_key != type_key,
            decreases self.spec_components().len() - j,
        {
            if self.components[j].type_key == type_key {
                proof {
                    self.lemma_comp_id_of_unique(j as u32);
                }
                return Some(j as u32);
            }
            j = j + 1;
        }
        None
    }

    /// Overwrite the bytes of one component on one live entity; every other
    /// component of every entity is untouched.  Returns false, changing
    /// nothing, for a stale key, an unknown type, a component the entity
    /// lacks, or bytes of the wrong length.
    pub fn set_component_bytes(&mut self, key: EntityKey, type_key: u64, bytes: &Vec<u8>) -> (ok:
        bool)
        requires
            old(self).wf(),
        ensures
            final(self).wf(),
            final(self).spec_entities() == old(self).spec_entities(),
            !ok ==> final(self).spec_tables() == old(self).spec_tables() && final(self).spec_archetypes() == old(self).spec_archetypes() && final(self).spec_components() == old(self).spec_components(),
            ok ==> {
                &&& final(self).spec_component_of(key, type_key) == Some(bytes@)
                &&& forall|k2: EntityKey, tk2: u64|
                    old(self).spec_entities().spec_get(k2) is Some && (k2 != key || tk2 != type_key)
                        ==> #[trigger] final(self).spec_component_of(k2, tk2) == old(self).spec_component_of(k2, tk2)
            },
    {
        let e = match self.entities.get(key) {
            Some(e) => *e,
            None => {
                return false;
            },
        };
        proof {
            assert(self.spec_entities().slots()[key.id as int].entity == Some(e));
            assert(self.wf_archetype(e.archetype_id.0 as int));
        }
        let cid = match self.comp_id_for_key(type_key) {
            Some(c) => c,
            None => {
                return false;
            },
        };
        let a_us = e.archetype_id.0 as usize;
        let ghost s0 = *self;
        let mut table = empty_table();
        core::mem::swap(&mut self.tables[a_us], &mut table);
        let ok = table.set_comp_bytes(cid, e.row_id, bytes);
        core::mem::swap(&mut self.tables[a_us], &mut table);
        if !ok {
            proof {
                assert(self.spec_tables() =~= s0.spec_tables());
                assert forall|a2: int| 0 <= a2 < self.spec_archetypes().len() implies #[trigger] self.wf_archetype(a2) by {
                    assert(s0.wf_archetype(a2));
                }
                assert forall|a1: int, a2: int|
                    0 <= a1 < a2 < self.spec_archetypes().len() implies self.arch_set(a1)
                    != self.arch_set(a2) by {
                    assert(s0.arch_set(a1) != s0.arch_set(a2));
                }
                assert(self.wf_rows()) by {
                    assert(s0.wf_rows());
                }
                assert(self.wf_records()) by {
                    assert(s0.wf_records());
                }
            }
            return false;
        }
        proof {
            let a = a_us as int;
            assert forall|a2: int| 0 <= a2 < self.spec_archetypes().len() implies #[trigger] self.wf_archetype(a2) by {
                assert(s0.wf_archetype(a2));
            }
            assert forall|a1: int, a2: int|
                0 <= a1 < a2 < self.spec_archetypes().len() implies self.arch_set(a1)
                != self.arch_set(a2) by {
                assert(s0.arch_set(a1) != s0.arch_set(a2));
            }
            assert(self.wf_rows()) by {
                assert forall|a2: int, r2: int|
                    0 <= a2 < self.spec_tables().len() && 0 <= r2 < self.spec_tables()[
                    a2
                ].spec_len() implies self.spec_entities().spec_get(
                    #[trigger] self.spec_tables()[a2].spec_entities()[r2],
                ) == Some(Entity { archetype_id: ArchetypeId(a2 as u32), row_id: r2 as u32 }) by {
                    assert(self.spec_tables()[a2].spec_entities() == s0.spec_tables()[
                        a2
                    ].spec_entities());
                }
            }
            assert(self.wf_records()) by {
                assert forall|i: int|
                    0 <= i < self.spec_entities().slot_count() && (
                    #[trigger] self.spec_entities().slots()[i]).entity is Some implies {
                    let e2 = self.spec_entities().slots()[i].entity->0;
                    &&& e2.archetype_id.0 < self.spec_tables().len()
                    &&& e2.row_id < self.spec_tables()[e2.archetype_id.0 as int].spec_len()
                    &&& self.spec_tables()[e2.archetype_id.0 as int].spec_entities()[
                        e2.row_id as int
                    ] == (EntityKey { id: i as u32, generation: self.spec_entities().gen_of(i) })
                } by {
                    assert(s0.spec_entities().slots()[i].entity is Some);
                }
            }
            assert forall|k2: EntityKey, tk2: u64|
                s0.spec_entities().spec_get(k2) is Some && (k2 != key || tk2 != type_key)
                    implies #[trigger] self.spec_component_of(k2, tk2) == s0.spec_component_of(
                k2,
                tk2,
            ) by {
                let e2 = s0.spec_entities().spec_get(k2)->0;
                if s0.has_comp_key(tk2) {
                    let c2 = s0.spec_comp_id_of(tk2) as u32;
                    if e2.archetype_id.0 as int == a {
                        if k2 != key {
                            assert(e2.row_id != e.row_id);
                        } else {
                            assert(c2 != cid) by {
                                if c2 == cid {
                                    s0.lemma_comp_id_of_unique(cid);
                                    assert(tk2 == s0.spec_components()[cid as int].type_key);
                                    assert(tk2 == type_key);
                                }
                            }
                        }
                        assert(self.spec_tables()[a].spec_comp_bytes(c2, e2.row_id as int)
                            == s0.spec_tables()[a].spec_comp_bytes(c2, e2.row_id as int));
                    } else {
                        assert(self.spec_tables()[e2.archetype_id.0 as int] == s0.spec_tables()[
                            e2.archetype_id.0 as int
                        ]);
                    }
                }
            }
        }
        true
    }

    /// The full component-id set of one archetype, as a sorted vector.
    #[verifier::loop_isolation(false)]
    pub fn full_arch_set_sorted(&self, a: usize) -> (r: SortedVec)
        requires
            self.wf(),
            a < self.spec_archetypes().len(),
        ensures
            r.wf(),
            r@.to_set() == self.arch_set(a as int),
    {
        proof {
            assert(self.wf_archetype(a as int));
        }
        let arch = &self.archetypes[a];
        let mut all: Vec<u32> = Vec::new();
        let soa = arch.soa_comp_ids.get_vec();
        let mut i: usize = 0;
        while i < soa.len()
            invariant
                soa@ == arch.soa_comp_ids@,
                i <= soa@.len(),
                all@ == soa@.subrange(0, i as int),
            decreases soa@.len() - i,
        {
            all.push(soa[i]);
            proof {
                assert(all@ =~= soa@.subrange(0, (i + 1) as int));
            }
            i = i + 1;
        }
        proof {
            assert(soa@.subrange(0, soa@.len() as int) =~= soa@);
        }
        let aos = arch.aos_comp_ids.get_vec();
        let mut j: usize = 0;
        while j < aos.len()
            invariant
                aos@ == arch.aos_comp_ids@,
                j <= aos@.len(),
                all@ == arch.soa_comp_ids@ + aos@.subrange(0, j as int),
            decreases aos@.len() - j,
        {
            all.push(aos[j]);
            proof {
                assert(all@ =~= arch.soa_comp_ids@ + aos@.subrange(0, (j + 1) as int));
            }
            j = j + 1;
        }
        proof {
            assert(aos@.subrange(0, aos@.len() as int) =~= aos@);
        }
        let ghost allg = all@;
        let sorted = SortedVec::from_vec(all);
        proof {
            sorted@.to_multiset_ensures();
            allg.to_multiset_ensures();
            assert forall|x: u32| sorted@.to_set().contains(x) <==> self.arch_set(
                a as int,
            ).contains(x) by {
                assert(sorted@.to_set().contains(x) == sorted@.contains(x));
                assert(sorted@.contains(x) <==> sorted@.to_multiset().count(x) > 0);
                assert(allg.contains(x) <==> allg.to_multiset().count(x) > 0);
                if allg.contains(x) {
                    let w = choose|w: int| 0 <= w < allg.len() && allg[w] == x;
                    if w < arch.soa_comp_ids@.len() {
                        assert(arch.soa_comp_ids@[w] == x);
                        assert(arch.soa_comp_ids@.contains(x));
                    } else {
                        assert(arch.aos_comp_ids@[w - arch.soa_comp_ids@.len()] == x);
                        assert(arch.aos_comp_ids@.contains(x));
                    }
                }
                if arch.soa_comp_ids@.contains(x) {
                    let w = choose|w: int|
                        0 <= w < arch.soa_comp_ids@.len() && arch.soa_comp_ids@[w] == x;
                    assert(allg[w] == x);
                    assert(allg.contains(x));
                }
                if arch.aos_comp_ids@.contains(x) {
                    let w = choose|w: int|
                        0 <= w < arch.aos_comp_ids@.len() && arch.aos_comp_ids@[w] == x;
                    assert(allg[arch.soa_comp_ids@.len() + w] == x);
                    assert(allg.contains(x));
                }
            }
            assert(sorted@.to_set() =~= self.arch_set(a as int));
        }
        sorted
    }

    /// The owning entity key of every row of one archetype's table, in row
    /// order; each key is live and points back at its row.
    pub fn table_entity_keys(&self, a: usize) -> (r: Vec<EntityKey>)
        requires
            self.wf(),
            a < self.spec_archetypes().len(),
        ensures
            r@ == self.spec_tables()[a as int].spec_entities(),
            r@.len() == self.spec_tables()[a as int].spec_len(),
            forall|i: int|
                0 <= i < r@.len() ==> self.spec_entities().spec_get(#[trigger] r@[i]) == Some(
                    Entity { archetype_id: ArchetypeId(a as u32), row_id: i as u32 },
                ),
    {
        proof {
            assert(self.wf_archetype(a as int));
        }
        let table = &self.tables[a];
        proof {
            assert(table.wf());
        }
        let n = table.len();
        let mut out: Vec<EntityKey> = Vec::new();
        let mut i: u32 = 0;
        while i < n
            invariant
                self.wf(),
                a < self.spec_archetypes().len(),
                table == &self.spec_tables()[a as int],
                n == table.spec_len(),
                i <= n,
                out@.len() == i,
                out@ == table.spec_entities().subrange(0, i as int),
                forall|i2: int|
                    0 <= i2 < out@.len() ==> self.spec_entities().spec_get(#[trigger] out@[i2])
                        == Some(Entity { archetype_id: ArchetypeId(a as u32), row_id: i2 as u32 }),
            decreases n - i,
        {
            proof {
                assert(self.wf_archetype(a as int));
            }
            let key = table.entity_at(i);
            proof {
                assert(self.spec_entities().spec_get(table.spec_entities()[i as int]) == Some(
                    Entity { archetype_id: ArchetypeId(a as u32), row_id: i as u32 },
                ));
            }
            out.push(key);
            proof {
                assert(out@ =~= table.spec_entities().subrange(0, (i + 1) as int));
            }
            i = i + 1;
        }
        proof {
            assert(table.spec_entities().subrange(0, table.spec_entities().len() as int)
                =~= table.spec_entities());
        }
        out
    }

    /// Number of live entities is not tracked directly; expose the slot and
    /// catalog counts the tests and callers need.
    pub fn archetype_count(&self) -> (r: usize)
        ensures
            r == self.spec_archetypes().len(),
    {
        self.archetypes.len()
    }

    pub fn component_count(&self) -> (r: usize)
        ensures
            r == self.spec_components().len(),
    {
        self.components.len()
    }

    /// A live entity reads every component the same in two states that
    /// agree on its slot, keep the registry as a prefix, and read its row
    /// identically.
    proof fn lemma_component_reads_stable(pre: Self, post: Self, k2: EntityKey, tk: u64)
        requires
            pre.wf(),
            pre.spec_entities().spec_get(k2) is Some,
            post.spec_entities().spec_get(k2) == pre.spec_entities().spec_get(k2),
            post.spec_components().len() >= pre.spec_components().len(),
            post.spec_components().len() <= u32::MAX,
            forall|i: int|
                0 <= i < pre.spec_components().len() ==> post.spec_components()[i]
                    == pre.spec_components()[i],
            forall|i: int, j: int|
                0 <= i < j < post.spec_components().len() ==> (#[trigger] post.spec_components()[
                    i
                ]).type_key != (#[trigger] post.spec_components()[j]).type_key,
            ({
                let e2 = pre.spec_entities().spec_get(k2)->0;
                let a2 = e2.archetype_id.0 as int;
                &&& a2 < post.spec_tables().len()
                &&& post.spec_tables()[a2].soa_ids() == pre.spec_tables()[a2].soa_ids()
                &&& post.spec_tables()[a2].aos_ids() == pre.spec_tables()[a2].aos_ids()
                &&& forall|c: u32| #[trigger] post.spec_tables()[a2].spec_comp_bytes(
                        c,
                        e2.row_id as int,
                    ) == pre.spec_tables()[a2].spec_comp_bytes(c, e2.row_id as int)
            }),
        ensures
            post.spec_component_of(k2, tk) == pre.spec_component_of(k2, tk),
    {
        let e2 = pre.spec_entities().spec_get(k2)->0;
        let a2 = e2.archetype_id.0 as int;
        assert(pre.spec_entities().slots()[k2.id as int].entity == Some(e2));
        assert(pre.wf_archetype(a2));
        if pre.has_comp_key(tk) {
            let c = pre.spec_comp_id_of(tk);
            assert(0 <= c < pre.spec_components().len() && pre.spec_components()[c].type_key
                == tk);
            assert(post.spec_components()[c].type_key == tk);
            assert(post.has_comp_key(tk)) by {
                assert(post.spec_components()[c].type_key == tk);
            }
            let c2 = post.spec_comp_id_of(tk);
            assert(0 <= c2 < post.spec_components().len() && post.spec_components()[c2].type_key
                == tk);
            assert(c2 == c) by {
                if c2 != c {
                    if c2 < c {
                        assert(post.spec_components()[c2].type_key != post.spec_components()[
                            c
                        ].type_key);
                    } else {
                        assert(post.spec_components()[c].type_key != post.spec_components()[
                            c2
                        ].type_key);
                    }
                }
            }
            assert(post.spec_tables()[a2].spec_comp_bytes(c as u32, e2.row_id as int)
                == pre.spec_tables()[a2].spec_comp_bytes(c as u32, e2.row_id as int));
        } else {
            if post.has_comp_key(tk) {
                let c2 = post.spec_comp_id_of(tk);
                assert(0 <= c2 < post.spec_components().len() && post.spec_components()[
                    c2
                ].type_key == tk);
                assert(c2 >= pre.spec_components().len()) by {
                    if c2 < pre.spec_components().len() {
                        assert(pre.spec_components()[c2].type_key == tk);
                        assert(pre.has_comp_key(tk)) by {
                            assert(pre.spec_components()[c2].type_key == tk);
                        }
                    }
                }
                // an id the registry had not assigned cannot be in any of
                // the entity's archetype ids
                assert((c2 as u32) as int == c2);
                let arch = pre.spec_archetypes()[a2];
                assert(pre.spec_tables()[a2].soa_ids() == arch.soa_comp_ids@);
                assert(pre.spec_tables()[a2].aos_ids() == arch.aos_comp_ids@);
                assert(!post.spec_tables()[a2].soa_ids().contains(c2 as u32)) by {
                    if post.spec_tables()[a2].soa_ids().contains(c2 as u32) {
                        assert(arch.soa_comp_ids@.contains(c2 as u32));
                        let j = choose|j: int|
                            0 <= j < arch.soa_comp_ids@.len() && arch.soa_comp_ids@[j]
                                == c2 as u32;
                        assert(arch.soa_comp_ids@[j] < pre.spec_components().len());
                    }
                }
                assert(!post.spec_tables()[a2].aos_ids().contains(c2 as u32)) by {
                    if post.spec_tables()[a2].aos_ids().contains(c2 as u32) {
                        assert(arch.aos_comp_ids@.contains(c2 as u32));
                        let j = choose|j: int|
                            0 <= j < arch.aos_comp_ids@.len() && arch.aos_comp_ids@[j]
                                == c2 as u32;
                        assert(arch.aos_comp_ids@[j] < pre.spec_components().len());
                    }
                }
                assert(post.spec_component_of(k2, tk) is None);
            }
        }
    }

    /// When the allocator and every pre-existing archetype's data are
    /// untouched (the registry may have grown), every live entity reads
    /// every component as before.
    pub proof fn lemma_preserved_when_untouched(pre: Self, post: Self)
        requires
            pre.wf(),
            post.wf(),
            forall|k2: EntityKey|
                pre.spec_entities().spec_get(k2) is Some ==> #[trigger] post.spec_entities().spec_get(k2) == pre.spec_entities().spec_get(k2),
            post.spec_components().len() >= pre.spec_components().len(),
            forall|i: int|
                0 <= i < pre.spec_components().len() ==> post.spec_components()[i]
                    == pre.spec_components()[i],
            post.spec_tables().len() >= pre.spec_tables().len(),
            forall|a: int|
                0 <= a < pre.spec_tables().len() ==> #[trigger] post.spec_tables()[a]
                    == pre.spec_tables()[a],
        ensures
            forall|k2: EntityKey, tk: u64|
                pre.spec_entities().spec_get(k2) is Some ==> #[trigger] post.spec_component_of(
                    k2,
                    tk,
                ) == pre.spec_component_of(k2, tk),
    {
        assert forall|k2: EntityKey, tk: u64|
            pre.spec_entities().spec_get(k2) is Some implies #[trigger] post.spec_component_of(
            k2,
            tk,
        ) == pre.spec_component_of(k2, tk) by {
            let e2 = pre.spec_entities().spec_get(k2)->0;
            let a2 = e2.archetype_id.0 as int;
            assert(pre.spec_entities().slots()[k2.id as int].entity == Some(e2));
            assert(post.spec_tables()[a2] == pre.spec_tables()[a2]);
            Self::lemma_component_reads_stable(pre, post, k2, tk);
        }
    }

    /// Archetype uniqueness: no two archetype ids name the same component
    /// set, so a component set always resolves to one id.
    pub proof fn lemma_archetype_unique(self, a1: int, a2: int)
        requires
            self.wf(),
            0 <= a1 < self.spec_archetypes().len(),
            0 <= a2 < self.spec_archetypes().len(),
            self.arch_set(a1) == self.arch_set(a2),
        ensures
            a1 == a2,
    {
    }

    /// Order-independence of archetype identity: two component lists that
    /// name the same set of type keys — in whatever order, as tuples or
    /// not — resolve to the same archetype id, because each archetype's
    /// component set is characterized by the key set alone.
    pub proof fn lemma_archetype_of_records_unique(
        self,
        a1: int,
        a2: int,
        r1: Seq<ComponentRecord>,
        r2: Seq<ComponentRecord>,
    )
        requires
            self.wf(),
            0 <= a1 < self.spec_archetypes().len(),
            0 <= a2 < self.spec_archetypes().len(),
            self.arch_set_is_for_records(a1, r1),
            self.arch_set_is_for_records(a2, r2),
            records_key_set(r1) == records_key_set(r2),
        ensures
            a1 == a2,
    {
        assert forall|c: u32| self.arch_set(a1).contains(c) <==> self.arch_set(a2).contains(
            c,
        ) by {}
        assert(self.arch_set(a1) =~= self.arch_set(a2));
        self.lemma_archetype_unique(a1, a2);
    }

    /// The catalog's invariant depends on the allocator only through its
    /// slots: an operation that leaves every slot as it was leaves the
    /// catalog well-formed.
    proof fn lemma_wf_slots_same(pre: Self, post: Self)
        requires
            pre.wf(),
            post.spec_entities().wf(),
            post.spec_entities().slots() == pre.spec_entities().slots(),
            post.spec_components() == pre.spec_components(),
            post.spec_archetypes() == pre.spec_archetypes(),
            post.spec_tables() == pre.spec_tables(),
        ensures
            post.wf(),
    {
        assert forall|a2: int| 0 <= a2 < post.spec_archetypes().len() implies #[trigger] post.wf_archetype(a2) by {
            assert(pre.wf_archetype(a2));
        }
        assert forall|a1: int, a2: int|
            0 <= a1 < a2 < post.spec_archetypes().len() implies post.arch_set(a1)
            != post.arch_set(a2) by {
            assert(pre.arch_set(a1) != pre.arch_set(a2));
        }
        assert(post.wf_rows()) by {
            assert forall|a2: int, r2: int|
                0 <= a2 < post.spec_tables().len() && 0 <= r2 < post.spec_tables()[
                a2
            ].spec_len() implies post.spec_entities().spec_get(
                #[trigger] post.spec_tables()[a2].spec_entities()[r2],
            ) == Some(Entity { archetype_id: ArchetypeId(a2 as u32), row_id: r2 as u32 }) by {
                let k2 = post.spec_tables()[a2].spec_entities()[r2];
                assert(pre.spec_entities().spec_get(k2) == Some(
                    Entity { archetype_id: ArchetypeId(a2 as u32), row_id: r2 as u32 },
                ));
            }
        }
        assert(post.wf_records()) by {
            assert forall|i: int|
                0 <= i < post.spec_entities().slot_count() && (
                #[trigger] post.spec_entities().slots()[i]).entity is Some implies {
                let e2 = post.spec_entities().slots()[i].entity->0;
                &&& e2.archetype_id.0 < post.spec_tables().len()
                &&& e2.row_id < post.spec_tables()[e2.archetype_id.0 as int].spec_len()
                &&& post.spec_tables()[e2.archetype_id.0 as int].spec_entities()[e2.row_id as int]
                    == (EntityKey { id: i as u32, generation: post.spec_entities().gen_of(i) })
            } by {
                assert(pre.spec_entities().slots()[i].entity is Some);
            }
        }
    }

    /// Start-of-tick: reset the allocator's reservation barriers.
    pub fn reset_barriers(&mut self)
        requires
            old(self).wf(),
        ensures
            final(self).wf(),
            final(self).spec_entities().slots() == old(self).spec_entities().slots(),
            final(self).spec_components() == old(self).spec_components(),
            final(self).spec_archetypes() == old(self).spec_archetypes(),
            final(self).spec_tables() == old(self).spec_tables(),
            forall|k2: EntityKey|
                old(self).spec_entities().spec_can_fill(k2) ==> #[trigger] final(self).spec_entities().spec_can_fill(k2),
    {
        self.entities.reset_barriers();
        proof {
            Self::lemma_wf_slots_same(*old(self), *self);
        }
    }

    /// End-of-tick: materialize reserved brand-new entity slots.
    pub fn update_with_barriers(&mut self)
        requires
            old(self).wf(),
        ensures
            final(self).wf(),
            final(self).spec_components() == old(self).spec_components(),
            final(self).spec_archetypes() == old(self).spec_archetypes(),
            final(self).spec_tables() == old(self).spec_tables(),
            forall|k2: EntityKey|
                old(self).spec_entities().spec_get(k2) is Some ==> #[trigger] final(self).spec_entities().spec_get(k2) == old(self).spec_entities().spec_get(k2),
            // fillable reservations stay fillable, and the landed barrier
            // makes every brand-new reservation fillable
            forall|k2: EntityKey|
                old(self).spec_entities().spec_can_fill(k2) ==> #[trigger] final(self).spec_entities().spec_can_fill(k2),
            forall|k2: EntityKey|
                k2.id >= old(self).spec_entities().slot_count() && k2.id < old(self).spec_entities().barrier() && k2.generation == 0
                    ==> #[trigger] final(self).spec_entities().spec_can_fill(k2),
    {
        self.entities.update_with_barriers();
        proof {
            assert forall|a2: int| 0 <= a2 < self.spec_archetypes().len() implies #[trigger] self.wf_archetype(a2) by {
                assert(old(self).wf_archetype(a2));
            }
            assert forall|a1: int, a2: int|
                0 <= a1 < a2 < self.spec_archetypes().len() implies self.arch_set(a1)
                != self.arch_set(a2) by {
                assert(old(self).arch_set(a1) != old(self).arch_set(a2));
            }
            assert(self.wf_rows()) by {
                assert forall|a2: int, r2: int|
                    0 <= a2 < self.spec_tables().len() && 0 <= r2 < self.spec_tables()[
                    a2
                ].spec_len() implies self.spec_entities().spec_get(
                    #[trigger] self.spec_tables()[a2].spec_entities()[r2],
                ) == Some(Entity { archetype_id: ArchetypeId(a2 as u32), row_id: r2 as u32 }) by {
                    let k2 = self.spec_tables()[a2].spec_entities()[r2];
                    assert(old(self).spec_entities().spec_get(k2) == Some(
                        Entity { archetype_id: ArchetypeId(a2 as u32), row_id: r2 as u32 },
                    ));
                    assert(self.spec_entities().slots()[k2.id as int] == old(self).spec_entities().slots()[k2.id as int]);
                }
            }
            assert(self.wf_records()) by {
                assert forall|i: int|
                    0 <= i < self.spec_entities().slot_count() && (
                    #[trigger] self.spec_entities().slots()[i]).entity is Some implies {
                    let e2 = self.spec_entities().slots()[i].entity->0;
                    &&& e2.archetype_id.0 < self.spec_tables().len()
                    &&& e2.row_id < self.spec_tables()[e2.archetype_id.0 as int].spec_len()
                    &&& self.spec_tables()[e2.archetype_id.0 as int].spec_entities()[
                        e2.row_id as int
                    ] == (EntityKey { id: i as u32, generation: self.spec_entities().gen_of(i) })
                } by {
                    if i < old(self).spec_entities().slot_count() {
                        assert(self.spec_entities().slots()[i] == old(self).spec_entities().slots()[i]);
                    } else {
                        assert(self.spec_entities().slots()[i].entity is None);
                    }
                }
            }
            assert forall|k2: EntityKey|
                old(self).spec_entities().spec_get(k2) is Some implies #[trigger] self.spec_entities().spec_get(k2) == old(self).spec_entities().spec_get(k2) by {
                assert(self.spec_entities().slots()[k2.id as int] == old(self).spec_entities().slots()[k2.id as int]);
            }
        }
    }

    /// Hand out an entity key for deferred spawning.
    pub fn reserve_key(&mut self) -> (key: EntityKey)
        requires
            old(self).wf(),
            old(self).spec_entities().barrier() < u32::MAX,
        ensures
            final(self).wf(),
            final(self).spec_entities().slots() == old(self).spec_entities().slots(),
            final(self).spec_components() == old(self).spec_components(),
            final(self).spec_archetypes() == old(self).spec_archetypes(),
            final(self).spec_tables() == old(self).spec_tables(),
            final(self).spec_entities().spec_get(key) is None,
            // the reservation protocol: a recycled slot is fillable at
            // once; a brand-new id waits below the barrier for the next
            // barrier landing
            final(self).spec_entities().spec_can_fill(key) || (key.id >= old(self).spec_entities().slot_count() && key.id < final(self).spec_entities().barrier() && key.generation == 0),
            final(self).spec_entities().barrier() >= old(self).spec_entities().barrier(),
            final(self).spec_entities().slot_count() == old(self).spec_entities().slot_count(),
    {
        let key = self.entities.reserve();
        proof {
            Self::lemma_wf_slots_same(*old(self), *self);
        }
        key
    }

    /// Despawn the entity a key names: its table row is swap-removed, the
    /// entity whose row moved into the hole gets its stored row id
    /// repaired, and the key's slot is freed.  A stale key — including a
    /// key already removed once — is a no-op, never an error.
    #[verifier::loop_isolation(false)]
    pub fn remove_entity(&mut self, entity_key: EntityKey)
        requires
            old(self).wf(),
        ensures
            final(self).wf(),
            old(self).spec_entities().spec_get(entity_key) is None ==> *final(self) == *old(self),
            // the named key is dead afterwards, and no dead key revives
            final(self).spec_entities().spec_get(entity_key) is None,
            forall|k2: EntityKey|
                old(self).spec_entities().spec_get(k2) is None ==> #[trigger] final(self).spec_entities().spec_get(k2) is None,
            // the registry and catalog are untouched; no table gains a row
            final(self).spec_components() == old(self).spec_components(),
            final(self).spec_archetypes() == old(self).spec_archetypes(),
            final(self).spec_tables().len() == old(self).spec_tables().len(),
            forall|a: int|
                0 <= a < old(self).spec_tables().len() ==> (#[trigger] final(self).spec_tables()[
                    a
                ]).spec_len() <= old(self).spec_tables()[a].spec_len(),
            // a fillable reservation stays fillable
            forall|k2: EntityKey|
                old(self).spec_entities().spec_can_fill(k2) ==> #[trigger] final(self).spec_entities().spec_can_fill(k2),
            old(self).spec_entities().spec_get(entity_key) is Some ==> {
                &&& final(self).spec_entities().spec_get(entity_key) is None
                &&& forall|k2: EntityKey|
                    k2 != entity_key && old(self).spec_entities().spec_get(k2) is Some
                        ==> #[trigger] final(self).spec_entities().spec_get(k2) is Some
                // every other entity keeps every component value, wherever
                // its row was moved by the compaction
                &&& forall|k2: EntityKey, tk: u64|
                    k2 != entity_key && old(self).spec_entities().spec_get(k2) is Some
                        ==> #[trigger] final(self).spec_component_of(k2, tk) == old(self).spec_component_of(k2, tk)
            },
    {
        let e = match self.entities.get(entity_key) {
            Some(e) => *e,
            None => {
                return ;
            },
        };
        let a_us = e.archetype_id.0 as usize;
        proof {
            assert(self.spec_entities().slots()[entity_key.id as int].entity == Some(e));
            assert(self.wf_archetype(a_us as int));
            assert(self.spec_tables()[a_us as int].spec_entities()[e.row_id as int] == entity_key);
        }
        let ghost s0 = *self;
        let ghost old_len = self.spec_tables()[a_us as int].spec_len();
        let ghost mk_g = self.spec_tables()[a_us as int].spec_entities().last();
        let mut table = empty_table();
        core::mem::swap(&mut self.tables[a_us], &mut table);
        let moved = table.remove_entity(e);
        core::mem::swap(&mut self.tables[a_us], &mut table);
        let ghost s_after_table = *self;
        if let Some((moved_key, new_row)) = moved {
            proof {
                assert(moved_key == mk_g);
                assert(s0.spec_entities().spec_get(mk_g) == Some(
                    Entity {
                        archetype_id: ArchetypeId(a_us as u32),
                        row_id: (old_len - 1) as u32,
                    },
                ));
                assert(mk_g.id != entity_key.id);
            }
            match self.entities.get_mut(moved_key) {
                Some(ent) => {
                    ent.row_id = new_row;
                },
                None => {
                    proof {
                        assert(false);
                    }
                },
            }
        }
        let ghost s_fixed = *self;
        let _ = self.entities.remove(entity_key);
        proof {
            let a = a_us as int;
            let r = e.row_id as int;
            let last = old_len - 1;
            // catalog shape untouched
            assert forall|a2: int| 0 <= a2 < self.spec_archetypes().len() implies #[trigger] self.wf_archetype(a2) by {
                assert(s0.wf_archetype(a2));
            }
            assert forall|a1: int, a2: int|
                0 <= a1 < a2 < self.spec_archetypes().len() implies self.arch_set(a1)
                != self.arch_set(a2) by {
                assert(s0.arch_set(a1) != s0.arch_set(a2));
            }
            // distinct live keys occupy distinct slots
            assert forall|k1: EntityKey, k2: EntityKey|
                s0.spec_entities().spec_get(k1) is Some && s0.spec_entities().spec_get(k2) is Some
                    && k1 != k2 implies k1.id != k2.id by {}
            // rows still point at live keys
            assert forall|a2: int, r2: int|
                0 <= a2 < self.spec_tables().len() && 0 <= r2 < self.spec_tables()[
                a2
            ].spec_len() implies self.spec_entities().spec_get(
                #[trigger] self.spec_tables()[a2].spec_entities()[r2],
            ) == Some(Entity { archetype_id: ArchetypeId(a2 as u32), row_id: r2 as u32 }) by {
                if a2 == a {
                    if r2 == r && r < last {
                        assert(self.spec_tables()[a2].spec_entities()[r2] == mk_g);
                        assert(self.spec_entities().spec_get(mk_g) == Some(
                            Entity { archetype_id: ArchetypeId(a2 as u32), row_id: r2 as u32 },
                        ));
                    } else {
                        let k2 = self.spec_tables()[a2].spec_entities()[r2];
                        assert(k2 == s0.spec_tables()[a2].spec_entities()[r2]);
                        assert(s0.spec_entities().spec_get(k2) == Some(
                            Entity { archetype_id: ArchetypeId(a2 as u32), row_id: r2 as u32 },
                        ));
                        assert(k2.id != entity_key.id);
                        if moved is Some {
                            assert(k2.id != mk_g.id);
                        }
                    }
                } else {
                    let k2 = self.spec_tables()[a2].spec_entities()[r2];
                    assert(k2 == s0.spec_tables()[a2].spec_entities()[r2]);
                    assert(s0.spec_entities().spec_get(k2) == Some(
                        Entity { archetype_id: ArchetypeId(a2 as u32), row_id: r2 as u32 },
                    ));
                    assert(k2.id != entity_key.id);
                    if moved is Some {
                        assert(k2.id != mk_g.id);
                    }
                }
            }
            // records still point at their rows
            assert forall|i: int|
                0 <= i < self.spec_entities().slot_count() && (
                #[trigger] self.spec_entities().slots()[i]).entity is Some implies {
                let e2 = self.spec_entities().slots()[i].entity->0;
                &&& e2.archetype_id.0 < self.spec_tables().len()
                &&& e2.row_id < self.spec_tables()[e2.archetype_id.0 as int].spec_len()
                &&& self.spec_tables()[e2.archetype_id.0 as int].spec_entities()[e2.row_id as int]
                    == (EntityKey { id: i as u32, generation: self.spec_entities().gen_of(i) })
            } by {
                assert(i != entity_key.id);
                if moved is Some && i == mk_g.id {
                    let e2 = self.spec_entities().slots()[i].entity->0;
                    assert(e2 == Entity { archetype_id: ArchetypeId(a_us as u32), row_id: e.row_id });
                    assert(self.spec_tables()[a].spec_entities()[r] == mk_g);
                    assert(mk_g == EntityKey { id: i as u32, generation: self.spec_entities().gen_of(i) });
                } else {
                    assert(self.spec_entities().slots()[i] == s0.spec_entities().slots()[i]);
                    let e2 = s0.spec_entities().slots()[i].entity->0;
                    let k_i = EntityKey { id: i as u32, generation: s0.spec_entities().gen_of(i) };
                    assert(s0.spec_entities().spec_get(k_i) == Some(e2));
                    // this entity's row was neither the removed nor the moved row
                    if e2.archetype_id.0 as int == a {
                        assert(e2.row_id as int != r) by {
                            if e2.row_id as int == r {
                                assert(s0.spec_tables()[a].spec_entities()[r] == entity_key);
                                assert(k_i == entity_key);
                            }
                        }
                        assert(e2.row_id as int != last) by {
                            if e2.row_id as int == last {
                                assert(s0.spec_tables()[a].spec_entities()[last] == mk_g);
                                assert(k_i == mk_g);
                                assert(moved is Some) by {
                                    if moved is None {
                                        assert(r == last);
                                    }
                                }
                            }
                        }
                        assert(self.spec_tables()[a].spec_entities()[e2.row_id as int] == s0.spec_tables()[a].spec_entities()[e2.row_id as int]);
                    }
                }
            }
            // every other live key stays live
            assert forall|k2: EntityKey|
                k2 != entity_key && s0.spec_entities().spec_get(k2) is Some
                    implies #[trigger] self.spec_entities().spec_get(k2) is Some by {
                assert(k2.id != entity_key.id);
            }
            // ... and keeps every component value
            s0.spec_tables()[a].soa().lemma_wf_col_all();
            s0.spec_tables()[a].aos().lemma_wf_layout();
            assert forall|k2: EntityKey, tk: u64|
                k2 != entity_key && s0.spec_entities().spec_get(k2) is Some
                    implies #[trigger] self.spec_component_of(k2, tk) == s0.spec_component_of(
                k2,
                tk,
            ) by {
                assert(k2.id != entity_key.id);
                let e2_old = s0.spec_entities().spec_get(k2)->0;
                if s0.has_comp_key(tk) {
                    let c = s0.spec_comp_id_of(tk) as u32;
                    let a2 = e2_old.archetype_id.0 as int;
                    assert(s0.wf_archetype(a2));
                    if moved is Some && k2.id == mk_g.id {
                        assert(k2 == mk_g);
                        assert(e2_old == Entity {
                            archetype_id: ArchetypeId(a_us as u32),
                            row_id: last as u32,
                        });
                        assert(self.spec_entities().spec_get(k2) == Some(
                            Entity { archetype_id: ArchetypeId(a_us as u32), row_id: e.row_id },
                        ));
                        lemma_comp_bytes_swap_moved(
                            s0.spec_tables()[a],
                            self.spec_tables()[a],
                            c,
                            r,
                            last,
                        );
                    } else {
                        assert(self.spec_entities().slots()[k2.id as int]
                            == s0.spec_entities().slots()[k2.id as int]);
                        assert(self.spec_entities().spec_get(k2) == Some(e2_old));
                        if a2 == a {
                            let r2 = e2_old.row_id as int;
                            assert(r2 != r) by {
                                if r2 == r {
                                    assert(s0.spec_tables()[a].spec_entities()[r] == entity_key);
                                    assert(EntityKey {
                                        id: k2.id,
                                        generation: s0.spec_entities().gen_of(k2.id as int),
                                    } == entity_key);
                                }
                            }
                            assert(r2 != last) by {
                                if r2 == last {
                                    assert(s0.spec_tables()[a].spec_entities()[last] == mk_g);
                                    assert(moved is Some) by {
                                        if moved is None {
                                            assert(r == last);
                                        }
                                    }
                                    assert(k2 == mk_g);
                                }
                            }
                            lemma_comp_bytes_swap_other(
                                s0.spec_tables()[a],
                                self.spec_tables()[a],
                                c,
                                r,
                                last,
                                r2,
                            );
                        } else {
                            assert(self.spec_tables()[a2] == s0.spec_tables()[a2]);
                        }
                    }
                } else {
                    assert(!self.has_comp_key(tk));
                }
            }
        }
    }

    /// An id list with these type keys names exactly the ids whose
    /// registered type key appears among the records.
    proof fn lemma_ids_characterize(&self, ids: Seq<u32>, records: Seq<ComponentRecord>)
        requires
            self.wf_components(),
            ids.len() == records.len(),
            forall|q: int|
                0 <= q < ids.len() ==> #[trigger] ids[q] < self.spec_components().len()
                    && self.spec_components()[ids[q] as int].type_key == records[q].type_key,
        ensures
            forall|c: u32|
                ids.contains(c) <==> (c < self.spec_components().len() && records_key_set(
                    records,
                ).contains(self.spec_components()[c as int].type_key)),
    {
        assert forall|c: u32|
            ids.contains(c) <==> (c < self.spec_components().len() && records_key_set(
                records,
            ).contains(self.spec_components()[c as int].type_key)) by {
            if ids.contains(c) {
                let q = choose|q: int| 0 <= q < ids.len() && ids[q] == c;
                assert(self.spec_components()[c as int].type_key == records[q].type_key);
                assert(records_key_set(records).contains(records[q].type_key));
            }
            if c < self.spec_components().len() && records_key_set(records).contains(
                self.spec_components()[c as int].type_key,
            ) {
                let tk = self.spec_components()[c as int].type_key;
                let q = choose|q: int| 0 <= q < records.len() && records[q].type_key == tk;
                assert(self.spec_components()[ids[q] as int].type_key == tk);
                assert(ids[q] == c) by {
                    if ids[q] != c {
                        if ids[q] < c {
                            assert(self.spec_components()[ids[q] as int].type_key
                                != self.spec_components()[c as int].type_key);
                        } else {
                            assert(self.spec_components()[c as int].type_key
                                != self.spec_components()[ids[q] as int].type_key);
                        }
                    }
                }
                assert(ids.contains(c)) by {
                    assert(ids[q] == c);
                }
            }
        }
    }

    /// Does the query cover every id of archetype `a`?
    fn sorted_covers_arch(&self, a: usize, query: &SortedVec) -> (r: bool)
        requires
            self.wf(),
            query.wf(),
            a < self.spec_archetypes().len(),
        ensures
            r == forall|x: u32|
                self.arch_set(a as int).contains(x) ==> #[trigger] query@.contains(x),
    {
        proof {
            assert(self.wf_archetype(a as int));
        }
        let arch = &self.archetypes[a];
        let r1 = arch.soa_comp_ids.is_subset_of2(query);
        let r2 = arch.aos_comp_ids.is_subset_of2(query);
        proof {
            if r1 && r2 {
                assert forall|x: u32| self.arch_set(a as int).contains(x) implies #[trigger] query@.contains(x) by {
                    assert(arch.soa_comp_ids@.contains(x) || arch.aos_comp_ids@.contains(x));
                }
            } else {
                if !r1 {
                    let x = choose|x: u32| arch.soa_comp_ids@.contains(x) && !query@.contains(x);
                    assert(self.arch_set(a as int).contains(x));
                } else {
                    let x = choose|x: u32| arch.aos_comp_ids@.contains(x) && !query@.contains(x);
                    assert(self.arch_set(a as int).contains(x));
                }
            }
        }
        r1 && r2
    }

    /// Does archetype `a` contain every id of `query`?
    fn arch_contains_all(&self, a: usize, query: &SortedVec) -> (r: bool)
        requires
            self.wf(),
            a < self.spec_archetypes().len(),
        ensures
            r == self.arch_matches(a as int, query@),
    {
        proof {
            assert(self.wf_archetype(a as int));
        }
        let arch = &self.archetypes[a];
        let q = query.get_vec();
        let mut k: usize = 0;
        while k < q.len()
            invariant
                self.wf(),
                a < self.spec_archetypes().len(),
                arch == self.spec_archetypes()[a as int],
                q@ == query@,
                k <= q@.len(),
                forall|i: int|
                    0 <= i < k ==> self.arch_set(a as int).contains(#[trigger] q@[i]),
            decreases q@.len() - k,
        {
            let x = q[k];
            let in_soa = arch.soa_comp_ids.contains(x);
            let in_aos = arch.aos_comp_ids.contains(x);
            if !in_soa && !in_aos {
                proof {
                    assert(query@.contains(x)) by {
                        assert(query@[k as int] == x);
                    }
                    assert(!self.arch_set(a as int).contains(x));
                }
                return false;
            }
            k = k + 1;
        }
        proof {
            assert forall|x: u32| query@.contains(x) implies self.arch_set(a as int).contains(
                x,
            ) by {
                let i = choose|i: int| 0 <= i < query@.len() && query@[i] == x;
                assert(self.arch_set(a as int).contains(q@[i]));
            }
        }
        true
    }
}

/// Position of `cid` in the id list.
fn find_in_ids(ids: &Vec<u32>, cid: u32) -> (r: Option<usize>)
    ensures
        match r {
            Some(q) => q < ids@.len() && ids@[q as int] == cid,
            None => !ids@.contains(cid),
        },
{
    let mut q: usize = 0;
    while q < ids.len()
        invariant
            q <= ids@.len(),
            forall|i: int| 0 <= i < q ==> ids@[i] != cid,
        decreases ids@.len() - q,
    {
        if ids[q] == cid {
            return Some(q);
        }
        q = q + 1;
    }
    None
}

/// A table with no components and no rows, used as a placeholder while one
/// of the real tables is temporarily taken out for mutation.
fn empty_table() -> (r: TableStorage)
{
    let empty_components: Vec<ComponentInfo> = Vec::new();
    let empty_soa = SortedVec::new();
    let empty_aos = SortedVec::new();
    match TableStorage::new(ArchetypeId(0), &empty_components, &empty_soa, &empty_aos) {
        Ok(t) => t,
        Err(_) => {
            proof {
                assert(false);
            }
            vstd::pervasive::unreached()
        },
    }
}

/// Copy a vector of ids.
fn clone_u32s(v: &Vec<u32>) -> (r: Vec<u32>)
    ensures
        r@ == v@,
{
    let mut out: Vec<u32> = Vec::new();
    let mut i: usize = 0;
    while i < v.len()
        invariant
            i <= v@.len(),
            out@ == v@.subrange(0, i as int),
        decreases v@.len() - i,
    {
        out.push(v[i]);
        proof {
            assert(out@ =~= v@.subrange(0, (i + 1) as int));
        }
        i = i + 1;
    }
    proof {
        assert(v@.subrange(0, v@.len() as int) =~= v@);
    }
    out
}

/// Two sequences with the same multiset are duplicate-free together.
proof fn lemma_ids_no_dup(sorted: Seq<u32>, ids: Seq<u32>)
    requires
        sorted.to_multiset() == ids.to_multiset(),
        no_duplicates(sorted),
    ensures
        no_duplicates(ids),
{
    assert(sorted.no_duplicates());
    sorted.lemma_multiset_has_no_duplicates();
    ids.lemma_multiset_has_no_duplicates_conv();
    assert(ids.no_duplicates());
}

/// Compare two storage routings.
fn storage_eq(a: StorageTypes, b: StorageTypes) -> (r: bool)
    ensures
        r == (a == b),
{
    match (a, b) {
        (StorageTypes::TableAoS, StorageTypes::TableAoS) => true,
        (StorageTypes::TableSoA, StorageTypes::TableSoA) => true,
        (StorageTypes::SparseSet, StorageTypes::SparseSet) => true,
        _ => false,
    }
}

} // verus!
