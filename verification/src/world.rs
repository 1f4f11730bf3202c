//! The world: the data store every system works on, the registered
//! systems, and the scheduler.  One `run` is one tick: the entity
//! allocator's reservation barriers are reset, the systems' execution order
//! is decided (failing loudly on a constraint cycle), buffered structural
//! commands are drained, and the allocator's reserved-key bookkeeping is
//! settled.

use vstd::prelude::*;
use crate::any_map::AnyMap;
use crate::commands::{
    commands_despawn_key, commands_record_count, lemma_commands_record_count_nonneg,
    lemma_queues_command_count_nonneg, lemma_queues_record_count_nonneg, queue_despawns_key,
    queue_names_key, queue_spawn_unique, queue_spawns_key, queues_command_count,
    queues_record_count, spawn_records_at, CommandQueuesStorage, CommandRecord,
};
use crate::component::{ComponentId, ComponentRecord};
use crate::dependency::{EcsDependencyGraph, QueryId};
use crate::entity::EntityKey;
use crate::entity_storage::EntityStorage;
use crate::error::EcsError;
use crate::query::{create_query_state, QueryState};
use crate::resource::ResourceId;
use crate::scheduler::SingleThreadScheduler;
use crate::sorted_vec::SortedVec;
use crate::system::{
    Access, AccessTarget, ParamDecl, RefType, SystemConfig, SystemDecl, SystemId, SystemParamId,
    Systems,
};

verus! {

/// A deferred spawn the drain is bound to apply: its command is the only
/// one naming its key, the reservation is fillable, every record is
/// well-formed with its type registered under exactly its layout, and the
/// registry, catalog and tables have room for the whole drain.
pub open spec fn spawn_applies(
    es: EntityStorage,
    inuse: Seq<Vec<CommandRecord>>,
    qi: int,
    ci: int,
    k: crate::entity::EntityKey,
) -> bool {
    let rs = spawn_records_at(inuse, qi, ci);
    &&& queue_spawn_unique(inuse, qi, ci, k)
    &&& es.spec_entities().spec_can_fill(k)
    &&& es.records_registered(rs)
    &&& crate::entity_storage::records_distinct_keys(rs)
    &&& forall|q: int| 0 <= q < rs.len() ==> (#[trigger] rs[q]).wf()
    &&& es.spec_components().len() + queues_record_count(inuse) <= u32::MAX
    &&& es.spec_archetypes().len() + queues_command_count(inuse) <= u32::MAX
    &&& forall|a: int|
        0 <= a < es.spec_tables().len() ==> (#[trigger] es.spec_tables()[a]).spec_len()
            + queues_command_count(inuse) <= u32::MAX
    &&& rs.len() * (crate::component::MAX_COMPONENT_SIZE + crate::component::MAX_COMPONENT_ALIGN)
        + crate::component::MAX_COMPONENT_ALIGN <= usize::MAX
}

/// Everything the systems read and write: resources, the entity catalog,
/// the resolved queries, the command-queue pool, and the dependency graph.
pub struct WorldData {
    pub resources: AnyMap,
    pub entity_storage: EntityStorage,
    pub query_data: Vec<QueryState>,
    pub commands_queues: CommandQueuesStorage,
    pub depend_graph: EcsDependencyGraph,
}

impl WorldData {
    pub open spec fn wf(self) -> bool {
        &&& self.resources.wf()
        &&& self.entity_storage.wf()
        &&& self.commands_queues.wf()
        &&& self.depend_graph.wf()
    }

    pub fn new() -> (r: Self)
        ensures
            r.wf(),
            r.query_data@.len() == 0,
            r.resources.entries().len() == 0,
            r.commands_queues.spec_inuse().len() == 0,
            r.entity_storage.spec_components().len() == 0,
            r.entity_storage.spec_archetypes().len() == 0,
            r.entity_storage.spec_entities().slot_count() == 0,
            r.depend_graph.spec_graph().spec_nodes().slot_count() == 0,
    {
        WorldData {
            resources: AnyMap::new(),
            entity_storage: EntityStorage::new(),
            query_data: Vec::new(),
            commands_queues: CommandQueuesStorage::new(),
            depend_graph: EcsDependencyGraph::new(),
        }
    }

    /// Store a resource value (as its bytes) under its type key.
    pub fn add_resource(&mut self, type_key: u64, value: Vec<u8>) -> (r: ResourceId)
        requires
            old(self).wf(),
        ensures
            final(self).wf(),
            r == ResourceId(type_key),
            final(self).resources.has_key(type_key),
            final(self).resources.value_of(type_key) == value@,
            final(self).entity_storage == old(self).entity_storage,
            old(self).depend_graph.spec_graph().spec_nodes().slot_count() < u32::MAX ==> final(self).depend_graph.has_resource(ResourceId(type_key)),
    {
        self.resources.insert(type_key, value);
        let resource_id = ResourceId::new(type_key);
        self.depend_graph.insert_resource(resource_id);
        resource_id
    }

    /// Drain every in-use command queue, applying its spawns and
    /// despawns, the most recently queued first.  A spawn whose records
    /// are malformed or whose reservation was overtaken is skipped; a
    /// despawn of an already-gone entity is a no-op: deferred commands
    /// never fail the tick.  Every entity no queued command names stays
    /// live with all its component values, and a despawned entity no
    /// spawn re-reserves is gone.
    #[verifier::loop_isolation(false)]
    pub fn execute_commands(&mut self)
        requires
            old(self).wf(),
        ensures
            final(self).wf(),
            final(self).commands_queues.spec_inuse().len() == 0,
            forall|k2: crate::entity::EntityKey|
                old(self).entity_storage.spec_entities().spec_get(k2) is Some && !queue_names_key(
                    old(self).commands_queues.spec_inuse(),
                    k2,
                ) ==> #[trigger] final(self).entity_storage.spec_entities().spec_get(k2) is Some,
            forall|k2: crate::entity::EntityKey, tk: u64|
                old(self).entity_storage.spec_entities().spec_get(k2) is Some && !queue_names_key(
                    old(self).commands_queues.spec_inuse(),
                    k2,
                ) ==> #[trigger] final(self).entity_storage.spec_component_of(k2, tk) == old(self).entity_storage.spec_component_of(k2, tk),
            // a key some queued despawn names, and no queued spawn
            // reserves, is dead once the queues are drained
            forall|k2: crate::entity::EntityKey|
                queue_despawns_key(old(self).commands_queues.spec_inuse(), k2)
                    && !queue_spawns_key(old(self).commands_queues.spec_inuse(), k2)
                    ==> #[trigger] final(self).entity_storage.spec_entities().spec_get(
                    k2,
                ) is None,
            // a uniquely-named, fillable, well-budgeted spawn is applied:
            // its key is live with every record readable
            forall|qi2: int, ci2: int, k2: crate::entity::EntityKey|
                #[trigger] spawn_applies(
                    old(self).entity_storage,
                    old(self).commands_queues.spec_inuse(),
                    qi2,
                    ci2,
                    k2,
                ) ==> final(self).entity_storage.spec_entities().spec_get(k2) is Some && (forall|
                    q: int,
                |
                    0 <= q < spawn_records_at(
                        old(self).commands_queues.spec_inuse(),
                        qi2,
                        ci2,
                    ).len() ==> #[trigger] final(self).entity_storage.spec_component_of(
                        k2,
                        spawn_records_at(old(self).commands_queues.spec_inuse(), qi2, ci2)[q].type_key,
                    ) == Some(
                        spawn_records_at(old(self).commands_queues.spec_inuse(), qi2, ci2)[q].bytes@,
                    )),
    {
        while self.commands_queues.inuse_count() > 0
            invariant
                self.wf(),
                self.commands_queues.spec_inuse().len() <= old(self).commands_queues.spec_inuse().len(),
                self.commands_queues.spec_inuse() == old(self).commands_queues.spec_inuse().subrange(
                    0,
                    self.commands_queues.spec_inuse().len() as int,
                ),
                forall|k2: crate::entity::EntityKey|
                    old(self).entity_storage.spec_entities().spec_get(k2) is Some
                        && !queue_names_key(old(self).commands_queues.spec_inuse(), k2)
                        ==> #[trigger] self.entity_storage.spec_entities().spec_get(k2) is Some,
                forall|k2: crate::entity::EntityKey, tk: u64|
                    old(self).entity_storage.spec_entities().spec_get(k2) is Some
                        && !queue_names_key(old(self).commands_queues.spec_inuse(), k2)
                        ==> #[trigger] self.entity_storage.spec_component_of(k2, tk) == old(self).entity_storage.spec_component_of(k2, tk),
                forall|k2: crate::entity::EntityKey|
                    queue_despawns_key(old(self).commands_queues.spec_inuse(), k2)
                        && !queue_spawns_key(old(self).commands_queues.spec_inuse(), k2)
                        ==> queue_despawns_key(self.commands_queues.spec_inuse(), k2)
                        || #[trigger] self.entity_storage.spec_entities().spec_get(k2) is None,
                self.entity_storage.spec_components().len() + queues_record_count(
                    self.commands_queues.spec_inuse(),
                ) <= old(self).entity_storage.spec_components().len() + queues_record_count(
                    old(self).commands_queues.spec_inuse(),
                ),
                self.entity_storage.spec_archetypes().len() + queues_command_count(
                    self.commands_queues.spec_inuse(),
                ) <= old(self).entity_storage.spec_archetypes().len() + queues_command_count(
                    old(self).commands_queues.spec_inuse(),
                ),
                queues_command_count(self.commands_queues.spec_inuse()) <= queues_command_count(
                    old(self).commands_queues.spec_inuse(),
                ),
                self.entity_storage.spec_tables().len() >= old(self).entity_storage.spec_tables().len(),
                forall|a: int|
                    0 <= a < old(self).entity_storage.spec_tables().len()
                        ==> (#[trigger] self.entity_storage.spec_tables()[a]).spec_len()
                        + queues_command_count(self.commands_queues.spec_inuse()) <= old(self).entity_storage.spec_tables()[a].spec_len() + queues_command_count(
                        old(self).commands_queues.spec_inuse(),
                    ),
                forall|a: int|
                    old(self).entity_storage.spec_tables().len() <= a
                        < self.entity_storage.spec_tables().len()
                        ==> (#[trigger] self.entity_storage.spec_tables()[a]).spec_len()
                        + queues_command_count(self.commands_queues.spec_inuse())
                        <= queues_command_count(old(self).commands_queues.spec_inuse()),
                self.entity_storage.spec_components().len() >= old(self).entity_storage.spec_components().len(),
                forall|i: int|
                    0 <= i < old(self).entity_storage.spec_components().len()
                        ==> self.entity_storage.spec_components()[i] == old(self).entity_storage.spec_components()[i],
                forall|qi2: int, ci2: int, k2: crate::entity::EntityKey|
                    #[trigger] spawn_applies(
                        old(self).entity_storage,
                        old(self).commands_queues.spec_inuse(),
                        qi2,
                        ci2,
                        k2,
                    ) ==> (qi2 < self.commands_queues.spec_inuse().len()
                        && self.entity_storage.spec_entities().spec_can_fill(k2)) || (
                    self.entity_storage.spec_entities().spec_get(k2) is Some && (forall|q: int|
                        0 <= q < spawn_records_at(
                            old(self).commands_queues.spec_inuse(),
                            qi2,
                            ci2,
                        ).len() ==> #[trigger] self.entity_storage.spec_component_of(
                            k2,
                            spawn_records_at(
                                old(self).commands_queues.spec_inuse(),
                                qi2,
                                ci2,
                            )[q].type_key,
                        ) == Some(
                            spawn_records_at(
                                old(self).commands_queues.spec_inuse(),
                                qi2,
                                ci2,
                            )[q].bytes@,
                        ))),
            decreases self.commands_queues.spec_inuse().len(),
        {
            let ghost inuse_b4 = self.commands_queues.spec_inuse();
            let mut cq = match self.commands_queues.pop_inuse() {
                Some(q) => q,
                None => {
                    proof {
                        assert(false);
                    }
                    Vec::new()
                },
            };
            let ghost inuse_after = self.commands_queues.spec_inuse();
            let ghost qi = inuse_after.len() as int;
            let ghost qg = cq@;
            proof {
                assert(inuse_after =~= old(self).commands_queues.spec_inuse().subrange(0, qi));
                assert(old(self).commands_queues.spec_inuse()[qi] == cq);
                assert(queues_record_count(inuse_b4) == queues_record_count(inuse_after)
                    + commands_record_count(cq@)) by {
                    assert(inuse_b4.drop_last() == inuse_after);
                    assert(inuse_b4.last() == cq);
                }
                assert(queues_command_count(inuse_b4) == queues_command_count(inuse_after)
                    + cq@.len()) by {
                    assert(inuse_b4.drop_last() == inuse_after);
                    assert(inuse_b4.last() == cq);
                }
                assert forall|k2: crate::entity::EntityKey|
                    queue_despawns_key(old(self).commands_queues.spec_inuse(), k2)
                        && !queue_spawns_key(old(self).commands_queues.spec_inuse(), k2) implies (
                queue_despawns_key(self.commands_queues.spec_inuse(), k2) || commands_despawn_key(
                    cq@,
                    k2,
                ) || #[trigger] self.entity_storage.spec_entities().spec_get(k2) is None) by {
                    if !(self.entity_storage.spec_entities().spec_get(k2) is None) {
                        assert(queue_despawns_key(inuse_b4, k2));
                        let (qi2, ci2) = choose|qi2: int, ci2: int|
                            0 <= qi2 < inuse_b4.len() && 0 <= ci2 < inuse_b4[qi2]@.len() && (
                            match #[trigger] inuse_b4[qi2]@[ci2] {
                                CommandRecord::Spawn { reserved_key: _, records: _ } => false,
                                CommandRecord::Despawn { entity_key } => entity_key == k2,
                            });
                        if qi2 == qi {
                            assert(inuse_b4[qi2] == cq);
                            assert(commands_despawn_key(cq@, k2)) by {
                                assert(0 <= ci2 < cq@.len() && (match cq@[ci2] {
                                    CommandRecord::Spawn { reserved_key: _, records: _ } => false,
                                    CommandRecord::Despawn { entity_key } => entity_key == k2,
                                }));
                            }
                        } else {
                            assert(inuse_after[qi2] == inuse_b4[qi2]);
                            assert(queue_despawns_key(inuse_after, k2)) by {
                                assert(0 <= qi2 < inuse_after.len() && 0 <= ci2 < inuse_after[
                                    qi2
                                ]@.len() && (match inuse_after[qi2]@[ci2] {
                                    CommandRecord::Spawn { reserved_key: _, records: _ } => false,
                                    CommandRecord::Despawn { entity_key } => entity_key == k2,
                                }));
                            }
                        }
                    }
                }
                assert forall|qi2: int, ci2: int, k2: crate::entity::EntityKey|
                    #[trigger] spawn_applies(
                        old(self).entity_storage,
                        old(self).commands_queues.spec_inuse(),
                        qi2,
                        ci2,
                        k2,
                    ) implies ((qi2 < inuse_after.len() || (qi2 == qi && ci2 < cq@.len()))
                        && self.entity_storage.spec_entities().spec_can_fill(k2)) || (
                self.entity_storage.spec_entities().spec_get(k2) is Some && (forall|q: int|
                    0 <= q < spawn_records_at(
                        old(self).commands_queues.spec_inuse(),
                        qi2,
                        ci2,
                    ).len() ==> #[trigger] self.entity_storage.spec_component_of(
                        k2,
                        spawn_records_at(old(self).commands_queues.spec_inuse(), qi2, ci2)[
                            q
                        ].type_key,
                    ) == Some(
                        spawn_records_at(old(self).commands_queues.spec_inuse(), qi2, ci2)[
                            q
                        ].bytes@,
                    ))) by {
                    if qi2 < inuse_b4.len()
                        && self.entity_storage.spec_entities().spec_can_fill(k2) {
                        assert(inuse_b4.len() == qi + 1);
                        if qi2 == qi {
                            assert(ci2 < old(self).commands_queues.spec_inuse()[qi2]@.len());
                            assert(ci2 < cq@.len());
                        }
                    }
                }
            }
            while cq.len() > 0
                invariant
                    self.wf(),
                    self.commands_queues.spec_inuse() == inuse_after,
                    inuse_after == old(self).commands_queues.spec_inuse().subrange(0, qi),
                    qi < old(self).commands_queues.spec_inuse().len(),
                    old(self).commands_queues.spec_inuse()[qi]@ == qg,
                    cq@.len() <= qg.len(),
                    cq@ == qg.subrange(0, cq@.len() as int),
                    forall|k2: crate::entity::EntityKey|
                        old(self).entity_storage.spec_entities().spec_get(k2) is Some
                            && !queue_names_key(old(self).commands_queues.spec_inuse(), k2)
                            ==> #[trigger] self.entity_storage.spec_entities().spec_get(
                            k2,
                        ) is Some,
                    forall|k2: crate::entity::EntityKey, tk: u64|
                        old(self).entity_storage.spec_entities().spec_get(k2) is Some
                            && !queue_names_key(old(self).commands_queues.spec_inuse(), k2)
                            ==> #[trigger] self.entity_storage.spec_component_of(k2, tk) == old(self).entity_storage.spec_component_of(k2, tk),
                    forall|k2: crate::entity::EntityKey|
                        queue_despawns_key(old(self).commands_queues.spec_inuse(), k2)
                            && !queue_spawns_key(old(self).commands_queues.spec_inuse(), k2)
                            ==> queue_despawns_key(self.commands_queues.spec_inuse(), k2)
                            || commands_despawn_key(cq@, k2)
                            || #[trigger] self.entity_storage.spec_entities().spec_get(
                            k2,
                        ) is None,
                    self.entity_storage.spec_components().len() + queues_record_count(inuse_after)
                        + commands_record_count(cq@) <= old(self).entity_storage.spec_components().len() + queues_record_count(
                        old(self).commands_queues.spec_inuse(),
                    ),
                    self.entity_storage.spec_archetypes().len() + queues_command_count(
                        inuse_after,
                    ) + cq@.len() <= old(self).entity_storage.spec_archetypes().len()
                        + queues_command_count(old(self).commands_queues.spec_inuse()),
                    queues_command_count(inuse_after) + cq@.len() <= queues_command_count(
                        old(self).commands_queues.spec_inuse(),
                    ),
                    self.entity_storage.spec_tables().len() >= old(self).entity_storage.spec_tables().len(),
                    forall|a: int|
                        0 <= a < old(self).entity_storage.spec_tables().len()
                            ==> (#[trigger] self.entity_storage.spec_tables()[a]).spec_len()
                            + queues_command_count(inuse_after) + cq@.len() <= old(self).entity_storage.spec_tables()[a].spec_len() + queues_command_count(
                            old(self).commands_queues.spec_inuse(),
                        ),
                    forall|a: int|
                        old(self).entity_storage.spec_tables().len() <= a
                            < self.entity_storage.spec_tables().len()
                            ==> (#[trigger] self.entity_storage.spec_tables()[a]).spec_len()
                            + queues_command_count(inuse_after) + cq@.len()
                            <= queues_command_count(old(self).commands_queues.spec_inuse()),
                    self.entity_storage.spec_components().len() >= old(self).entity_storage.spec_components().len(),
                    forall|i: int|
                        0 <= i < old(self).entity_storage.spec_components().len()
                            ==> self.entity_storage.spec_components()[i] == old(self).entity_storage.spec_components()[i],
                    forall|qi2: int, ci2: int, k2: crate::entity::EntityKey|
                        #[trigger] spawn_applies(
                            old(self).entity_storage,
                            old(self).commands_queues.spec_inuse(),
                            qi2,
                            ci2,
                            k2,
                        ) ==> ((qi2 < inuse_after.len() || (qi2 == qi && ci2 < cq@.len()))
                            && self.entity_storage.spec_entities().spec_can_fill(k2)) || (
                        self.entity_storage.spec_entities().spec_get(k2) is Some && (forall|
                            q: int,
                        |
                            0 <= q < spawn_records_at(
                                old(self).commands_queues.spec_inuse(),
                                qi2,
                                ci2,
                            ).len() ==> #[trigger] self.entity_storage.spec_component_of(
                                k2,
                                spawn_records_at(
                                    old(self).commands_queues.spec_inuse(),
                                    qi2,
                                    ci2,
                                )[q].type_key,
                            ) == Some(
                                spawn_records_at(
                                    old(self).commands_queues.spec_inuse(),
                                    qi2,
                                    ci2,
                                )[q].bytes@,
                            ))),
                decreases cq@.len(),
            {
                let ghost cq_b4 = cq@;
                let command = match cq.pop() {
                    Some(c) => c,
                    None => {
                        proof {
                            assert(false);
                        }
                        CommandRecord::Despawn { entity_key: EntityKey { id: 0, generation: 0 } }
                    },
                };
                let ghost ci = cq@.len() as int;
                proof {
                    assert(cq@ =~= qg.subrange(0, ci));
                    assert(command == qg[ci]);
                    assert(old(self).commands_queues.spec_inuse()[qi]@[ci] == command);
                }
                let ghost es_pre = self.entity_storage;
                proof {
                    assert(commands_record_count(cq_b4) == commands_record_count(cq@) + (
                    match qg[ci] {
                        CommandRecord::Spawn { reserved_key: _, records } => records@.len() as int,
                        CommandRecord::Despawn { entity_key: _ } => 0,
                    })) by {
                        assert(cq_b4.drop_last() =~= cq@);
                        assert(cq_b4.last() == qg[ci]);
                    }
                    lemma_commands_record_count_nonneg(cq@);
                    lemma_queues_record_count_nonneg(inuse_after);
                    lemma_queues_command_count_nonneg(inuse_after);
                }
                match command {
                    CommandRecord::Spawn { reserved_key, records } => {
                        if records_ok(&records) {
                            let _ = self.entity_storage.add_entity_with_reserved_key(
                                reserved_key,
                                &records,
                            );
                        }
                        proof {
                            assert(queue_names_key(
                                old(self).commands_queues.spec_inuse(),
                                reserved_key,
                            )) by {
                                assert(0 <= qi < old(self).commands_queues.spec_inuse().len() && 0
                                    <= ci < old(self).commands_queues.spec_inuse()[qi]@.len()
                                    && (match old(self).commands_queues.spec_inuse()[qi]@[ci] {
                                    CommandRecord::Spawn { reserved_key: rk, records: _ } => rk
                                        == reserved_key,
                                    CommandRecord::Despawn { entity_key } => entity_key
                                        == reserved_key,
                                }));
                            }
                            assert(queue_spawns_key(
                                old(self).commands_queues.spec_inuse(),
                                reserved_key,
                            )) by {
                                assert(0 <= qi < old(self).commands_queues.spec_inuse().len() && 0
                                    <= ci < old(self).commands_queues.spec_inuse()[qi]@.len()
                                    && (match old(self).commands_queues.spec_inuse()[qi]@[ci] {
                                    CommandRecord::Spawn { reserved_key: rk, records: _ } => rk
                                        == reserved_key,
                                    CommandRecord::Despawn { entity_key: _ } => false,
                                }));
                            }
                            assert forall|k2: crate::entity::EntityKey|
                                k2 != reserved_key && es_pre.spec_entities().spec_get(
                                    k2,
                                ) is None implies #[trigger] self.entity_storage.spec_entities().spec_get(k2) is None by {}
                        }
                    },
                    CommandRecord::Despawn { entity_key } => {
                        self.entity_storage.remove_entity(entity_key);
                        proof {
                            assert(queue_names_key(
                                old(self).commands_queues.spec_inuse(),
                                entity_key,
                            )) by {
                                assert(0 <= qi < old(self).commands_queues.spec_inuse().len() && 0
                                    <= ci < old(self).commands_queues.spec_inuse()[qi]@.len()
                                    && (match old(self).commands_queues.spec_inuse()[qi]@[ci] {
                                    CommandRecord::Spawn { reserved_key: rk, records: _ } => rk
                                        == entity_key,
                                    CommandRecord::Despawn { entity_key: ek } => ek == entity_key,
                                }));
                            }
                            assert(self.entity_storage.spec_entities().spec_get(
                                entity_key,
                            ) is None);
                            assert forall|k2: crate::entity::EntityKey|
                                es_pre.spec_entities().spec_get(
                                    k2,
                                ) is None implies #[trigger] self.entity_storage.spec_entities().spec_get(k2) is None by {}
                        }
                    },
                }
                proof {
                    assert forall|k2: crate::entity::EntityKey|
                        old(self).entity_storage.spec_entities().spec_get(k2) is Some
                            && !queue_names_key(old(self).commands_queues.spec_inuse(), k2)
                            implies #[trigger] self.entity_storage.spec_entities().spec_get(
                        k2,
                    ) is Some by {
                        assert(es_pre.spec_entities().spec_get(k2) is Some);
                        match qg[ci] {
                            CommandRecord::Spawn { reserved_key, records: _ } => {},
                            CommandRecord::Despawn { entity_key } => {
                                assert(k2 != entity_key);
                            },
                        }
                    }
                    assert forall|k2: crate::entity::EntityKey, tk: u64|
                        old(self).entity_storage.spec_entities().spec_get(k2) is Some
                            && !queue_names_key(old(self).commands_queues.spec_inuse(), k2)
                            implies #[trigger] self.entity_storage.spec_component_of(k2, tk)
                        == old(self).entity_storage.spec_component_of(k2, tk) by {
                        assert(es_pre.spec_entities().spec_get(k2) is Some);
                        assert(self.entity_storage.spec_component_of(k2, tk)
                            == es_pre.spec_component_of(k2, tk));
                    }
                    assert forall|k2: crate::entity::EntityKey|
                        queue_despawns_key(old(self).commands_queues.spec_inuse(), k2)
                            && !queue_spawns_key(old(self).commands_queues.spec_inuse(), k2)
                            implies (queue_despawns_key(self.commands_queues.spec_inuse(), k2)
                            || commands_despawn_key(cq@, k2)
                            || #[trigger] self.entity_storage.spec_entities().spec_get(
                            k2,
                        ) is None) by {
                        if !queue_despawns_key(inuse_after, k2) {
                            if es_pre.spec_entities().spec_get(k2) is None {
                                // dead stays dead through either command
                                match qg[ci] {
                                    CommandRecord::Spawn { reserved_key: rk2, records: _ } => {
                                        assert(k2 != rk2);
                                        assert(self.entity_storage.spec_entities().spec_get(
                                            k2,
                                        ) is None);
                                    },
                                    CommandRecord::Despawn { entity_key: _ } => {
                                        assert(self.entity_storage.spec_entities().spec_get(
                                            k2,
                                        ) is None);
                                    },
                                }
                            } else {
                                // the despawn that names the key is still
                                // pending: in the shrunk queue, or it is
                                // the command just applied
                                assert(commands_despawn_key(cq_b4, k2));
                                let ci2 = choose|ci2: int|
                                    0 <= ci2 < cq_b4.len() && (match #[trigger] cq_b4[ci2] {
                                        CommandRecord::Spawn { reserved_key: _, records: _ }
                                            => false,
                                        CommandRecord::Despawn { entity_key } => entity_key == k2,
                                    });
                                if ci2 < ci {
                                    assert(cq_b4[ci2] == qg[ci2]);
                                    assert(cq@[ci2] == qg[ci2]);
                                    assert(commands_despawn_key(cq@, k2)) by {
                                        assert(0 <= ci2 < cq@.len() && (match cq@[ci2] {
                                            CommandRecord::Spawn { reserved_key: _, records: _ }
                                                => false,
                                            CommandRecord::Despawn { entity_key } => entity_key
                                                == k2,
                                        }));
                                    }
                                } else {
                                    assert(ci2 == ci);
                                    assert(cq_b4[ci2] == qg[ci]);
                                    match qg[ci] {
                                        CommandRecord::Spawn { reserved_key: _, records: _ } => {
                                            assert(false);
                                        },
                                        CommandRecord::Despawn { entity_key } => {
                                            assert(entity_key == k2);
                                            assert(self.entity_storage.spec_entities().spec_get(
                                                k2,
                                            ) is None);
                                        },
                                    }
                                }
                            }
                        }
                    }
                    assert forall|qi2: int, ci2: int, k2: crate::entity::EntityKey|
                        #[trigger] spawn_applies(
                            old(self).entity_storage,
                            old(self).commands_queues.spec_inuse(),
                            qi2,
                            ci2,
                            k2,
                        ) implies ((qi2 < inuse_after.len() || (qi2 == qi && ci2 < cq@.len()))
                            && self.entity_storage.spec_entities().spec_can_fill(k2)) || (
                    self.entity_storage.spec_entities().spec_get(k2) is Some && (forall|q: int|
                        0 <= q < spawn_records_at(
                            old(self).commands_queues.spec_inuse(),
                            qi2,
                            ci2,
                        ).len() ==> #[trigger] self.entity_storage.spec_component_of(
                            k2,
                            spawn_records_at(old(self).commands_queues.spec_inuse(), qi2, ci2)[
                                q
                            ].type_key,
                        ) == Some(
                            spawn_records_at(old(self).commands_queues.spec_inuse(), qi2, ci2)[
                                q
                            ].bytes@,
                        ))) by {
                        let oi = old(self).commands_queues.spec_inuse();
                        let rs = spawn_records_at(oi, qi2, ci2);
                        assert(oi[qi]@[ci] == qg[ci]);
                        if es_pre.spec_entities().spec_get(k2) is Some && (forall|q: int|
                            0 <= q < rs.len() ==> #[trigger] es_pre.spec_component_of(
                                k2,
                                rs[q].type_key,
                            ) == Some(rs[q].bytes@)) {
                            // applied already; this command leaves the
                            // entity and its values alone
                            match qg[ci] {
                                CommandRecord::Spawn { reserved_key: rk3, records: _ } => {
                                    assert(self.entity_storage.spec_entities().spec_get(
                                        k2,
                                    ) is Some);
                                    assert forall|q: int|
                                        0 <= q < rs.len() implies #[trigger] self.entity_storage.spec_component_of(k2, rs[q].type_key) == Some(
                                        rs[q].bytes@,
                                    ) by {
                                        assert(self.entity_storage.spec_component_of(
                                            k2,
                                            rs[q].type_key,
                                        ) == es_pre.spec_component_of(k2, rs[q].type_key));
                                    }
                                },
                                CommandRecord::Despawn { entity_key: ek3 } => {
                                    assert(ek3 != k2) by {
                                        if ek3 == k2 {
                                            assert(!(qi == qi2 && ci == ci2));
                                            assert(false);
                                        }
                                    }
                                    assert(self.entity_storage.spec_entities().spec_get(
                                        k2,
                                    ) is Some);
                                    assert forall|q: int|
                                        0 <= q < rs.len() implies #[trigger] self.entity_storage.spec_component_of(k2, rs[q].type_key) == Some(
                                        rs[q].bytes@,
                                    ) by {
                                        assert(self.entity_storage.spec_component_of(
                                            k2,
                                            rs[q].type_key,
                                        ) == es_pre.spec_component_of(k2, rs[q].type_key));
                                    }
                                },
                            }
                        } else {
                            assert((qi2 < inuse_after.len() || (qi2 == qi && ci2 < cq_b4.len()))
                                && es_pre.spec_entities().spec_can_fill(k2));
                            if qi2 < inuse_after.len() || (qi2 == qi && ci2 < ci) {
                                // still pending; the reservation stays
                                // fillable through this command
                                match qg[ci] {
                                    CommandRecord::Spawn { reserved_key: rk3, records: _ } => {
                                        assert(rk3 != k2) by {
                                            if rk3 == k2 {
                                                assert(!(qi == qi2 && ci == ci2));
                                                assert(false);
                                            }
                                        }
                                        assert(self.entity_storage.spec_entities().spec_can_fill(
                                            k2,
                                        ));
                                    },
                                    CommandRecord::Despawn { entity_key: _ } => {
                                        assert(self.entity_storage.spec_entities().spec_can_fill(
                                            k2,
                                        ));
                                    },
                                }
                            } else {
                                // this very command is the one spawn of the
                                // key: it applies
                                assert(qi2 == qi && ci2 == ci);
                                match qg[ci] {
                                    CommandRecord::Spawn { reserved_key: rk3, records: rcs3 } => {
                                        assert(rk3 == k2);
                                        assert(rcs3@ == rs);
                                        EntityStorage::lemma_records_registered_stable(
                                            old(self).entity_storage,
                                            es_pre,
                                            rs,
                                        );
                                        assert(es_pre.spec_components().len() + rs.len()
                                            <= u32::MAX) by {
                                            assert(commands_record_count(cq_b4)
                                                == commands_record_count(cq@) + rs.len());
                                        }
                                        assert(es_pre.spec_archetypes().len() < u32::MAX) by {
                                            assert(cq_b4.len() >= 1);
                                        }
                                        assert forall|a: int|
                                            0 <= a < es_pre.spec_tables().len() implies (
                                        #[trigger] es_pre.spec_tables()[a]).spec_len()
                                            < u32::MAX by {
                                            assert(cq_b4.len() >= 1);
                                        }
                                        assert(self.entity_storage.spec_entities().spec_get(
                                            k2,
                                        ) is Some);
                                        assert forall|q: int|
                                            0 <= q < rs.len() implies #[trigger] self.entity_storage.spec_component_of(k2, rs[q].type_key)
                                            == Some(rs[q].bytes@) by {}
                                    },
                                    CommandRecord::Despawn { entity_key: _ } => {
                                        assert(false);
                                    },
                                }
                            }
                        }
                    }
                }
            }
            self.commands_queues.put_unused(cq);
            proof {
                assert(self.commands_queues.spec_inuse() =~= old(self).commands_queues.spec_inuse().subrange(
                    0,
                    self.commands_queues.spec_inuse().len() as int,
                ));
            }
        }
    }
}

/// Are all records well-formed component values?
fn records_ok(records: &Vec<ComponentRecord>) -> (r: bool)
    ensures
        r == forall|q: int| 0 <= q < records@.len() ==> (#[trigger] records@[q]).wf(),
{
    let mut q: usize = 0;
    while q < records.len()
        invariant
            q <= records@.len(),
            forall|q2: int| 0 <= q2 < q ==> (#[trigger] records@[q2]).wf(),
        decreases records@.len() - q,
    {
        let rec = &records[q];
        if !(rec.bytes.len() == rec.size && rec.size <= crate::component::MAX_COMPONENT_SIZE && 1
            <= rec.align && rec.align <= crate::component::MAX_COMPONENT_ALIGN) {
            proof {
                assert(!records@[q as int].wf());
            }
            return false;
        }
        q = q + 1;
    }
    true
}

/// The world: data, systems, scheduler.
pub struct World {
    pub data: WorldData,
    pub systems: Systems,
    pub scheduler: SingleThreadScheduler,
}

impl World {
    pub open spec fn wf(self) -> bool {
        &&& self.data.wf()
        &&& self.systems.wf()
    }

    pub fn new() -> (r: Self)
        ensures
            r.wf(),
            r.systems.spec_systems().len() == 0,
            r.scheduler.schedule@.len() == 0,
            r.data.query_data@.len() == 0,
            r.data.resources.entries().len() == 0,
            r.data.commands_queues.spec_inuse().len() == 0,
            r.data.entity_storage.spec_components().len() == 0,
            r.data.entity_storage.spec_archetypes().len() == 0,
            r.data.entity_storage.spec_entities().slot_count() == 0,
            r.data.depend_graph.spec_graph().spec_nodes().slot_count() == 0,
    {
        World {
            data: WorldData::new(),
            systems: Systems::new(),
            scheduler: SingleThreadScheduler::new(),
        }
    }

    /// Store a resource value under its type key.
    pub fn add_resource(&mut self, type_key: u64, value: Vec<u8>) -> (r: ResourceId)
        requires
            old(self).wf(),
        ensures
            final(self).wf(),
            r == ResourceId(type_key),
            final(self).data.resources.has_key(type_key),
            final(self).data.resources.value_of(type_key) == value@,
            old(self).data.depend_graph.spec_graph().spec_nodes().slot_count() < u32::MAX ==> final(self).data.depend_graph.has_resource(ResourceId(type_key)),
    {
        self.data.add_resource(type_key, value)
    }

    /// Store a new entity built from the given component values.
    pub fn add_entity(&mut self, records: &Vec<ComponentRecord>) -> (r: Result<
        EntityKey,
        EcsError,
    >)
        requires
            old(self).wf(),
            forall|q: int| 0 <= q < records@.len() ==> (#[trigger] records@[q]).wf(),
            old(self).data.entity_storage.spec_entities().slot_count() < u32::MAX,
        ensures
            final(self).wf(),
            match r {
                Ok(key) => {
                    &&& final(self).data.entity_storage.spec_entities().spec_get(key) is Some
                    &&& forall|q: int|
                        0 <= q < records@.len() ==> #[trigger] final(self).data.entity_storage.spec_component_of(key, records@[q].type_key) == Some(
                            records@[q].bytes@,
                        )
                    // the entity's archetype describes exactly the
                    // records' key set; a known archetype leaves the
                    // catalog as it was, a fresh one is the only addition
                    &&& final(self).data.entity_storage.spec_entities().spec_get(
                        key,
                    )->0.archetype_id.0 < final(self).data.entity_storage.spec_archetypes().len()
                    &&& final(self).data.entity_storage.arch_set_is_for_records(
                        final(self).data.entity_storage.spec_entities().spec_get(
                            key,
                        )->0.archetype_id.0 as int,
                        records@,
                    )
                    &&& final(self).data.entity_storage.spec_entities().spec_get(
                        key,
                    )->0.archetype_id.0 < old(self).data.entity_storage.spec_archetypes().len()
                        ==> final(self).data.entity_storage.spec_archetypes() == old(self).data.entity_storage.spec_archetypes()
                    &&& final(self).data.entity_storage.spec_entities().spec_get(
                        key,
                    )->0.archetype_id.0 >= old(self).data.entity_storage.spec_archetypes().len()
                        ==> final(self).data.entity_storage.spec_archetypes().len() == old(self).data.entity_storage.spec_archetypes().len() + 1
                },
                Err(_) => final(self).data.entity_storage.spec_entities() == old(
                    self,
                ).data.entity_storage.spec_entities(),
            },
            // at most one archetype is created, and existing catalog
            // entries keep their descriptions
            final(self).data.entity_storage.spec_archetypes().len() <= old(self).data.entity_storage.spec_archetypes().len() + 1,
            forall|a: int|
                0 <= a < old(self).data.entity_storage.spec_archetypes().len()
                    ==> final(self).data.entity_storage.spec_archetypes()[a] == old(self).data.entity_storage.spec_archetypes()[a],
            final(self).data.entity_storage.spec_components().len() <= old(self).data.entity_storage.spec_components().len() + records@.len(),
            // entities that were live before keep every component value
            forall|k2: EntityKey, tk: u64|
                old(self).data.entity_storage.spec_entities().spec_get(k2) is Some
                    ==> #[trigger] final(self).data.entity_storage.spec_component_of(k2, tk) == old(
                    self,
                ).data.entity_storage.spec_component_of(k2, tk),
            // a duplicate-free, registry-consistent record list within the
            // id, layout and row budgets is always stored
            ({
                &&& old(self).data.entity_storage.records_registerable(records@)
                &&& crate::entity_storage::records_distinct_keys(records@)
                &&& old(self).data.entity_storage.spec_components().len() + records@.len()
                    <= u32::MAX
                &&& old(self).data.entity_storage.spec_archetypes().len() < u32::MAX
                &&& records@.len() * (crate::component::MAX_COMPONENT_SIZE
                    + crate::component::MAX_COMPONENT_ALIGN) + crate::component::MAX_COMPONENT_ALIGN
                    <= usize::MAX
                &&& forall|a: int|
                    0 <= a < old(self).data.entity_storage.spec_tables().len() ==> (#[trigger] old(
                        self,
                    ).data.entity_storage.spec_tables()[a]).spec_len() < u32::MAX
            }) ==> r is Ok,
    {
        self.data.entity_storage.add_entity(records)
    }

    /// Register one system; a declaration whose key was seen before names
    /// the already-registered system and stores nothing new, so ids stay
    /// dense and sequential in first-seen order.
    pub fn add_system(&mut self, value: SystemDecl) -> (id: SystemId)
        requires
            old(self).wf(),
        ensures
            final(self).wf(),
            id.0 < final(self).systems.spec_systems().len(),
            old(self).systems.spec_systems().len() < u32::MAX ==> final(self).systems.spec_systems()[id.0 as int].key == value.key,
            final(self).systems.spec_systems().len() >= old(self).systems.spec_systems().len(),
            forall|s: int|
                0 <= s < old(self).systems.spec_systems().len() ==> final(self).systems.spec_systems()[s] == old(self).systems.spec_systems()[s] && final(self).systems.spec_constraints()[s] == old(self).systems.spec_constraints()[s],
            // a seen key stores nothing
            old(self).systems.has_system_key(value.key) ==> final(self).systems == old(self).systems,
            // a new key appends exactly one declaration with a fresh dense id
            !old(self).systems.has_system_key(value.key) && old(self).systems.spec_systems().len()
                < u32::MAX ==> {
                &&& id.0 == old(self).systems.spec_systems().len()
                &&& final(self).systems.spec_systems() == old(self).systems.spec_systems().push(
                    value,
                )
                &&& final(self).systems.spec_constraints().len() == old(self).systems.spec_constraints().len() + 1
                &&& final(self).systems.spec_constraints().last().after@.len() == 0
                &&& final(self).systems.spec_constraints().last().before@.len() == 0
            },
            !old(self).systems.has_system_key(value.key) && old(self).systems.spec_systems().len()
                == u32::MAX ==> final(self).systems == old(self).systems,
            final(self).data == old(self).data,
            final(self).scheduler == old(self).scheduler,
    {
        self.systems.add_system(value)
    }

    /// Register a configured group of systems with ordering constraints:
    /// each member records the after()/before() systems, each of those
    /// mirrors the edge on its opposite set, and chain() links consecutive
    /// members.
    pub fn add_system_builder(&mut self, config: SystemConfig) -> (ids: Vec<SystemId>)
        requires
            old(self).wf(),
        ensures
            final(self).wf(),
            ids@.len() == config.systems@.len(),
            final(self).systems.spec_systems().len() >= old(self).systems.spec_systems().len(),
            forall|b: int|
                0 <= b < ids@.len() ==> (#[trigger] ids@[b]).0 < final(self).systems.spec_systems().len(),
            old(self).systems.spec_systems().len() + config.systems@.len() + config.after@.len()
                + config.before@.len() <= u32::MAX ==> {
                // the group's systems are registered under their keys
                &&& forall|b: int|
                    0 <= b < ids@.len() ==> final(self).systems.spec_systems()[
                        (#[trigger] ids@[b]).0 as int
                    ].key == config.systems@[b].key
                // the ordering systems exist
                &&& forall|j: int|
                    0 <= j < config.after@.len() ==> final(self).systems.has_system_key(
                        (#[trigger] config.after@[j]).key,
                    )
                &&& forall|j: int|
                    0 <= j < config.before@.len() ==> final(self).systems.has_system_key(
                        (#[trigger] config.before@[j]).key,
                    )
                // every group member records each after()/before() system,
                // found under its key
                &&& forall|b: int, j: int|
                    0 <= b < ids@.len() && 0 <= j < config.after@.len()
                        ==> final(self).systems.spec_constraints()[(#[trigger] ids@[b]).0 as int].after@.contains(
                        final(self).systems.spec_system_id_of(
                            (#[trigger] config.after@[j]).key,
                        ) as u32,
                    )
                &&& forall|b: int, j: int|
                    0 <= b < ids@.len() && 0 <= j < config.before@.len()
                        ==> final(self).systems.spec_constraints()[(#[trigger] ids@[b]).0 as int].before@.contains(
                        final(self).systems.spec_system_id_of(
                            (#[trigger] config.before@[j]).key,
                        ) as u32,
                    )
                // each after() system mirrors the edge on its before set
                &&& forall|b: int, j: int|
                    0 <= b < ids@.len() && 0 <= j < config.after@.len()
                        ==> final(self).systems.spec_constraints()[
                        final(self).systems.spec_system_id_of(
                            (#[trigger] config.after@[j]).key,
                        ) as int
                    ].before@.contains((#[trigger] ids@[b]).0)
                // each before() system mirrors the edge on its after set,
                // which is what makes before() order the runs
                &&& forall|b: int, j: int|
                    0 <= b < ids@.len() && 0 <= j < config.before@.len()
                        ==> final(self).systems.spec_constraints()[
                        final(self).systems.spec_system_id_of(
                            (#[trigger] config.before@[j]).key,
                        ) as int
                    ].after@.contains((#[trigger] ids@[b]).0)
                // chain() orders consecutive group members on both sides
                &&& config.chain ==> forall|i: int|
                    1 <= i < ids@.len() ==> final(self).systems.spec_constraints()[
                        (#[trigger] ids@[i]).0 as int
                    ].after@.contains(ids@[i - 1].0) && final(self).systems.spec_constraints()[
                        ids@[i - 1].0 as int
                    ].before@.contains(ids@[i].0)
            },
            final(self).data == old(self).data,
            final(self).scheduler == old(self).scheduler,
    {
        self.systems.add_system_builder(config)
    }

    /// Initialize every registered system: resolve its parameters against
    /// the world (registering component types, compiling queries, and
    /// recording accesses in the dependency graph), and schedule it.
    #[verifier::loop_isolation(false)]
    pub fn init_systems(&mut self) -> (r: Result<(), EcsError>)
        requires
            old(self).wf(),
        ensures
            final(self).wf(),
            r is Ok ==> {
                &&& final(self).scheduler.schedule@.len() == final(self).systems.spec_systems().len()
                &&& forall|i: int|
                    0 <= i < final(self).scheduler.schedule@.len() ==> (
                    #[trigger] final(self).scheduler.schedule@[i]).0 == i
                &&& final(self).systems.spec_param_data().len() == final(self).systems.spec_systems().len()
                &&& final(self).systems.spec_accesses().len() == final(self).systems.spec_systems().len()
            },
    {
        self.systems.reset_init_data();
        let n = self.systems.len();
        let mut s: usize = 0;
        while s < n
            invariant
                self.wf(),
                n == self.systems.spec_systems().len(),
                self.systems.spec_param_data().len() == s,
                self.systems.spec_accesses().len() == s,
                s <= n,
            decreases n - s,
        {
            let params = self.systems.take_params(s);
            let mut param_ids: Vec<SystemParamId> = Vec::new();
            let mut accesses: Vec<Access> = Vec::new();
            let sid = SystemId(s as u32);
            self.data.depend_graph.insert_system(sid);
            for decl in iter: params
                invariant
                    self.wf(),
                    n == self.systems.spec_systems().len(),
                    self.systems.spec_param_data().len() == s,
                    self.systems.spec_accesses().len() == s,
            {
                match decl {
                    ParamDecl::Res(tk) => {
                        self.data.depend_graph.insert_system_resource(
                            sid,
                            ResourceId(tk),
                            crate::dependency::EcsEdge::Shared,
                        );
                        param_ids.push(
                            SystemParamId::Resource(ResourceId(tk), RefType::Shared),
                        );
                        accesses.push(
                            Access { target: AccessTarget::Resource(tk), kind: RefType::Shared },
                        );
                    },
                    ParamDecl::ResMut(tk) => {
                        self.data.depend_graph.insert_system_resource(
                            sid,
                            ResourceId(tk),
                            crate::dependency::EcsEdge::Excl,
                        );
                        param_ids.push(
                            SystemParamId::Resource(ResourceId(tk), RefType::Exclusive),
                        );
                        accesses.push(
                            Access {
                                target: AccessTarget::Resource(tk),
                                kind: RefType::Exclusive,
                            },
                        );
                    },
                    ParamDecl::ResOwned(tk) => {
                        self.data.depend_graph.insert_system_resource(
                            sid,
                            ResourceId(tk),
                            crate::dependency::EcsEdge::Owned,
                        );
                        param_ids.push(SystemParamId::Resource(ResourceId(tk), RefType::Owned));
                        accesses.push(
                            Access { target: AccessTarget::Resource(tk), kind: RefType::Owned },
                        );
                    },
                    ParamDecl::Query { comps, filter } => {
                        let mut cids: Vec<u32> = Vec::new();
                        let mut comp_ids_typed: Vec<ComponentId> = Vec::new();
                        let mut kinds: Vec<RefType> = Vec::new();
                        for pair in iter2: comps
                            invariant
                                self.wf(),
                                n == self.systems.spec_systems().len(),
                                self.systems.spec_param_data().len() == s,
                                self.systems.spec_accesses().len() == s,
                                comp_ids_typed@.len() == kinds@.len(),
                        {
                            let (rec, kind) = pair;
                            let cid = match self.data.entity_storage.create_or_get_component(
                                &rec,
                            ) {
                                Ok(c) => c,
                                Err(e) => {
                                    return Err(e);
                                },
                            };
                            cids.push(cid.0);
                            comp_ids_typed.push(cid);
                            kinds.push(kind);
                            accesses.push(
                                Access { target: AccessTarget::Component(cid.0), kind },
                            );
                        }
                        let sorted = SortedVec::from_vec(cids);
                        let qs = create_query_state(&self.data.entity_storage, sorted, filter);
                        let qid = QueryId(self.query_count());
                        self.data.depend_graph.insert_system_components(
                            sid,
                            &comp_ids_typed,
                            &kinds,
                        );
                        self.data.depend_graph.insert_query_archetypes(qid, &qs.arch_ids);
                        self.data.depend_graph.insert_system_query(sid, qid);
                        self.data.query_data.push(qs);
                        param_ids.push(SystemParamId::Query(qid));
                    },
                    ParamDecl::Commands => {
                        param_ids.push(SystemParamId::NotRelevant);
                    },
                }
            }
            self.systems.push_init_data(param_ids, accesses);
            s = s + 1;
        }
        let mut s2: u32 = 0;
        let n2 = self.systems.len() as u32;
        self.scheduler.schedule = Vec::new();
        while s2 < n2
            invariant
                self.wf(),
                n2 == self.systems.spec_systems().len(),
                self.systems.spec_param_data().len() == n2,
                self.systems.spec_accesses().len() == n2,
                s2 <= n2,
                self.scheduler.schedule@.len() == s2,
                forall|i: int| 0 <= i < s2 ==> (#[trigger] self.scheduler.schedule@[i]).0 == i,
            decreases n2 - s2,
        {
            self.scheduler.schedule.push(SystemId(s2));
            s2 = s2 + 1;
        }
        Ok(())
    }

    /// Number of resolved queries so far, saturated at the id space.
    fn query_count(&self) -> (r: u32)
    {
        if self.data.query_data.len() >= u32::MAX as usize {
            u32::MAX
        } else {
            self.data.query_data.len() as u32
        }
    }

    /// One tick: reset the allocator's reservation barriers, decide the
    /// systems' execution order (the embedding program runs their bodies in
    /// exactly this order), materialize the keys reserved during the tick,
    /// and drain the deferred commands into the world.  A constraint cycle
    /// aborts the tick with the offending systems.
    pub fn run(&mut self) -> (r: Result<Vec<SystemId>, EcsError>)
        requires
            old(self).wf(),
        ensures
            final(self).wf(),
            match r {
                Ok(order) => {
                    &&& order@.to_multiset() == final(self).scheduler.schedule@.to_multiset()
                    &&& crate::scheduler::order_respects(
                        order@,
                        final(self).systems.spec_constraints(),
                        final(self).scheduler.schedule@,
                    )
                    &&& final(self).data.commands_queues.spec_inuse().len() == 0
                },
                Err(e) => (e matches EcsError::SchedulingLoop(rem) && crate::scheduler::stuck_set(
                    rem@,
                    old(self).systems.spec_constraints(),
                    old(self).scheduler.schedule@,
                )),
            },
            final(self).systems == old(self).systems,
            final(self).scheduler == old(self).scheduler,
            r is Ok ==> forall|k2: EntityKey|
                old(self).data.entity_storage.spec_entities().spec_get(k2) is Some
                    && !queue_names_key(old(self).data.commands_queues.spec_inuse(), k2)
                    ==> #[trigger] final(self).data.entity_storage.spec_entities().spec_get(
                    k2,
                ) is Some,
            r is Ok ==> forall|k2: EntityKey, tk: u64|
                old(self).data.entity_storage.spec_entities().spec_get(k2) is Some
                    && !queue_names_key(old(self).data.commands_queues.spec_inuse(), k2)
                    ==> #[trigger] final(self).data.entity_storage.spec_component_of(k2, tk)
                    == old(self).data.entity_storage.spec_component_of(k2, tk),
            // a queued despawn of a key no queued spawn reserves is applied
            r is Ok ==> forall|k2: EntityKey|
                queue_despawns_key(old(self).data.commands_queues.spec_inuse(), k2)
                    && !queue_spawns_key(old(self).data.commands_queues.spec_inuse(), k2)
                    ==> #[trigger] final(self).data.entity_storage.spec_entities().spec_get(
                    k2,
                ) is None,
            // a uniquely-named, fillable, well-budgeted queued spawn is
            // applied: its key is live with every record readable
            r is Ok ==> forall|qi2: int, ci2: int, k2: EntityKey|
                #[trigger] spawn_applies(
                    old(self).data.entity_storage,
                    old(self).data.commands_queues.spec_inuse(),
                    qi2,
                    ci2,
                    k2,
                ) ==> final(self).data.entity_storage.spec_entities().spec_get(k2) is Some && (
                forall|q: int|
                    0 <= q < spawn_records_at(
                        old(self).data.commands_queues.spec_inuse(),
                        qi2,
                        ci2,
                    ).len() ==> #[trigger] final(self).data.entity_storage.spec_component_of(
                        k2,
                        spawn_records_at(old(self).data.commands_queues.spec_inuse(), qi2, ci2)[
                            q
                        ].type_key,
                    ) == Some(
                        spawn_records_at(old(self).data.commands_queues.spec_inuse(), qi2, ci2)[
                            q
                        ].bytes@,
                    )),
    {
        let ghost es0 = self.data.entity_storage;
        self.data.entity_storage.reset_barriers();
        let order = match self.scheduler.execute(self.systems.get_constraints()) {
            Ok(o) => o,
            Err(e) => {
                return Err(e);
            },
        };
        self.data.entity_storage.update_with_barriers();
        let ghost es2 = self.data.entity_storage;
        proof {
            assert forall|k2: EntityKey| es0.spec_entities().spec_get(k2) is Some implies #[trigger] es2.spec_entities().spec_get(k2) == es0.spec_entities().spec_get(k2) by {
            }
            EntityStorage::lemma_preserved_when_untouched(es0, es2);
            assert forall|qi2: int, ci2: int, k2: EntityKey|
                #[trigger] spawn_applies(
                    es0,
                    old(self).data.commands_queues.spec_inuse(),
                    qi2,
                    ci2,
                    k2,
                ) implies spawn_applies(
                es2,
                old(self).data.commands_queues.spec_inuse(),
                qi2,
                ci2,
                k2,
            ) by {
                let rs = spawn_records_at(old(self).data.commands_queues.spec_inuse(), qi2, ci2);
                EntityStorage::lemma_records_registered_stable(es0, es2, rs);
                assert(es2.spec_entities().spec_can_fill(k2));
                assert(es2.spec_components() == es0.spec_components());
                assert(es2.spec_archetypes() == es0.spec_archetypes());
                assert(es2.spec_tables() == es0.spec_tables());
            }
        }
        self.data.execute_commands();
        proof {
            assert forall|k2: EntityKey, tk: u64|
                es0.spec_entities().spec_get(k2) is Some && !queue_names_key(
                    old(self).data.commands_queues.spec_inuse(),
                    k2,
                ) implies #[trigger] self.data.entity_storage.spec_component_of(k2, tk)
                == es0.spec_component_of(k2, tk) by {
                assert(es2.spec_entities().spec_get(k2) is Some);
                assert(self.data.entity_storage.spec_component_of(k2, tk) == es2.spec_component_of(
                    k2,
                    tk,
                ));
                assert(es2.spec_component_of(k2, tk) == es0.spec_component_of(k2, tk));
            }
        }
        Ok(order)
    }

    /// The parallel schedule for the registered systems: constraint
    /// batches, each split into conflict-free sub-batches, straight from
    /// the scheduler.
    pub fn parallel_plan(&self) -> (r: Result<Vec<Vec<Vec<SystemId>>>, EcsError>)
        requires
            self.wf(),
        ensures
            match r {
                Ok(plan) => {
                    &&& forall|b: int, g: int, i1: int, i2: int|
                        0 <= b < plan@.len() && 0 <= g < (#[trigger] plan@[b])@.len() && 0 <= i1
                            < i2 < plan@[b]@[g]@.len() && (#[trigger] plan@[b]@[g]@[i1]).0
                            < self.systems.spec_accesses().len() && (
                        #[trigger] plan@[b]@[g]@[i2]).0 < self.systems.spec_accesses().len()
                            ==> !crate::system::accesses_conflict(
                            self.systems.spec_accesses()[plan@[b]@[g]@[i1].0 as int]@,
                            self.systems.spec_accesses()[plan@[b]@[g]@[i2].0 as int]@,
                        )
                    &&& crate::scheduler::flatten_plan_multiset(plan@)
                        == self.scheduler.schedule@.to_multiset()
                },
                Err(e) => e is SchedulingLoop,
            },
    {
        crate::scheduler::parallel_schedule(
            &self.scheduler.schedule,
            self.systems.get_constraints(),
            self.systems.get_accesses_all(),
        )
    }

    /// Initialize, then tick repeatedly: the fixed-tick simulation loop,
    /// bounded by a tick budget so that it provably terminates.  The first
    /// configuration error stops the loop.
    pub fn run_loop(&mut self, max_ticks: u64) -> (r: Result<(), EcsError>)
        requires
            old(self).wf(),
        ensures
            final(self).wf(),
            r is Ok ==> final(self).scheduler.schedule@.len() == final(self).systems.spec_systems().len(),
    {
        match self.init_systems() {
            Ok(_) => (),
            Err(e) => {
                return Err(e);
            },
        }
        let mut tick: u64 = 0;
        while tick < max_ticks
            invariant
                self.wf(),
                self.scheduler.schedule@.len() == self.systems.spec_systems().len(),
            decreases max_ticks - tick,
        {
            match self.run() {
                Ok(_) => (),
                Err(e) => {
                    return Err(e);
                },
            }
            tick = tick + 1;
        }
        Ok(())
    }

    /// Initialize, then run one tick.
    pub fn init_and_run(&mut self) -> (r: Result<Vec<SystemId>, EcsError>)
        requires
            old(self).wf(),
        ensures
            final(self).wf(),
            match r {
                Ok(order) => {
                    &&& order@.to_multiset() == final(self).scheduler.schedule@.to_multiset()
                    &&& crate::scheduler::order_respects(
                        order@,
                        final(self).systems.spec_constraints(),
                        final(self).scheduler.schedule@,
                    )
                    &&& final(self).scheduler.schedule@.len() == final(self).systems.spec_systems().len()
                    &&& final(self).data.commands_queues.spec_inuse().len() == 0
                },
                Err(_) => true,
            },
    {
        match self.init_systems() {
            Ok(_) => (),
            Err(e) => {
                return Err(e);
            },
        }
        self.run()
    }
}

} // verus!
