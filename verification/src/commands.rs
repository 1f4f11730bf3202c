//! Deferred structural commands: systems queue spawns and despawns while a
//! tick runs; the world drains and applies them between batches.  Queues
//! are pooled — checked out while a system runs, returned once drained.

use vstd::prelude::*;
use crate::component::ComponentRecord;
use crate::entity::EntityKey;
use crate::entity_storage::EntityStorage;

verus! {

/// One buffered structural change.
pub enum CommandRecord {
    /// Populate the reserved key with a new entity built from the records.
    Spawn { reserved_key: EntityKey, records: Vec<ComponentRecord> },
    /// Remove the entity the key names (a no-op if it is already gone).
    Despawn { entity_key: EntityKey },
}

/// Does any queued command name this entity key — as a spawn's reserved
/// key or a despawn's target?
pub open spec fn queue_names_key(inuse: Seq<Vec<CommandRecord>>, k: EntityKey) -> bool {
    exists|qi: int, ci: int|
        0 <= qi < inuse.len() && 0 <= ci < inuse[qi]@.len() && (match #[trigger] inuse[qi]@[ci] {
            CommandRecord::Spawn { reserved_key, records: _ } => reserved_key == k,
            CommandRecord::Despawn { entity_key } => entity_key == k,
        })
}

/// Does any queued spawn reserve this entity key?
pub open spec fn queue_spawns_key(inuse: Seq<Vec<CommandRecord>>, k: EntityKey) -> bool {
    exists|qi: int, ci: int|
        0 <= qi < inuse.len() && 0 <= ci < inuse[qi]@.len() && (match #[trigger] inuse[qi]@[ci] {
            CommandRecord::Spawn { reserved_key, records: _ } => reserved_key == k,
            CommandRecord::Despawn { entity_key: _ } => false,
        })
}

/// Does any queued despawn target this entity key?
pub open spec fn queue_despawns_key(inuse: Seq<Vec<CommandRecord>>, k: EntityKey) -> bool {
    exists|qi: int, ci: int|
        0 <= qi < inuse.len() && 0 <= ci < inuse[qi]@.len() && (match #[trigger] inuse[qi]@[ci] {
            CommandRecord::Spawn { reserved_key: _, records: _ } => false,
            CommandRecord::Despawn { entity_key } => entity_key == k,
        })
}

/// Does any command of this one queue despawn the key?
pub open spec fn commands_despawn_key(q: Seq<CommandRecord>, k: EntityKey) -> bool {
    exists|ci: int|
        0 <= ci < q.len() && (match #[trigger] q[ci] {
            CommandRecord::Spawn { reserved_key: _, records: _ } => false,
            CommandRecord::Despawn { entity_key } => entity_key == k,
        })
}

/// Command `(qi, ci)` is a spawn reserving `k`, and no other queued
/// command names `k`.
pub open spec fn queue_spawn_unique(
    inuse: Seq<Vec<CommandRecord>>,
    qi: int,
    ci: int,
    k: EntityKey,
) -> bool {
    &&& 0 <= qi < inuse.len()
    &&& 0 <= ci < inuse[qi]@.len()
    &&& (inuse[qi]@[ci] matches CommandRecord::Spawn { reserved_key, records: _ } && reserved_key
        == k)
    &&& forall|qj: int, cj: int|
        0 <= qj < inuse.len() && 0 <= cj < inuse[qj]@.len() && !(qj == qi && cj == ci) ==> !(
        match #[trigger] inuse[qj]@[cj] {
            CommandRecord::Spawn { reserved_key, records: _ } => reserved_key == k,
            CommandRecord::Despawn { entity_key } => entity_key == k,
        })
}

/// The records of the spawn at `(qi, ci)`; empty for a despawn.
pub open spec fn spawn_records_at(
    inuse: Seq<Vec<CommandRecord>>,
    qi: int,
    ci: int,
) -> Seq<ComponentRecord> {
    match inuse[qi]@[ci] {
        CommandRecord::Spawn { reserved_key: _, records } => records@,
        CommandRecord::Despawn { entity_key: _ } => Seq::empty(),
    }
}

/// Total component records carried by one queue's spawns.
pub open spec fn commands_record_count(q: Seq<CommandRecord>) -> int
    decreases q.len(),
{
    if q.len() == 0 {
        0
    } else {
        commands_record_count(q.drop_last()) + (match q.last() {
            CommandRecord::Spawn { reserved_key: _, records } => records@.len() as int,
            CommandRecord::Despawn { entity_key: _ } => 0,
        })
    }
}

/// Total component records carried by all the queues' spawns.
pub open spec fn queues_record_count(inuse: Seq<Vec<CommandRecord>>) -> int
    decreases inuse.len(),
{
    if inuse.len() == 0 {
        0
    } else {
        queues_record_count(inuse.drop_last()) + commands_record_count(inuse.last()@)
    }
}

/// Total number of queued commands.
pub open spec fn queues_command_count(inuse: Seq<Vec<CommandRecord>>) -> int
    decreases inuse.len(),
{
    if inuse.len() == 0 {
        0
    } else {
        queues_command_count(inuse.drop_last()) + inuse.last()@.len()
    }
}

/// No queue subtracts from a count.
pub proof fn lemma_commands_record_count_nonneg(q: Seq<CommandRecord>)
    ensures
        commands_record_count(q) >= 0,
    decreases q.len(),
{
    if q.len() > 0 {
        lemma_commands_record_count_nonneg(q.drop_last());
    }
}

/// Nor does any pool of queues.
pub proof fn lemma_queues_record_count_nonneg(inuse: Seq<Vec<CommandRecord>>)
    ensures
        queues_record_count(inuse) >= 0,
    decreases inuse.len(),
{
    if inuse.len() > 0 {
        lemma_queues_record_count_nonneg(inuse.drop_last());
        lemma_commands_record_count_nonneg(inuse.last()@);
    }
}

/// Command counts are nonnegative too.
pub proof fn lemma_queues_command_count_nonneg(inuse: Seq<Vec<CommandRecord>>)
    ensures
        queues_command_count(inuse) >= 0,
    decreases inuse.len(),
{
    if inuse.len() > 0 {
        lemma_queues_command_count_nonneg(inuse.drop_last());
    }
}

/// The pool of command queues: queues in use by running systems, and
/// drained queues kept for reuse.
pub struct CommandQueuesStorage {
    command_queues_unused: Vec<Vec<CommandRecord>>,
    command_queues_inuse: Vec<Vec<CommandRecord>>,
}

impl CommandQueuesStorage {
    pub closed spec fn spec_inuse(self) -> Seq<Vec<CommandRecord>> {
        self.command_queues_inuse@
    }

    pub closed spec fn spec_unused(self) -> Seq<Vec<CommandRecord>> {
        self.command_queues_unused@
    }

    /// Pooled queues are empty, ready for checkout.
    pub open spec fn wf(self) -> bool {
        forall|i: int|
            0 <= i < self.spec_unused().len() ==> (#[trigger] self.spec_unused()[i])@.len() == 0
    }

    pub fn new() -> (r: Self)
        ensures
            r.wf(),
            r.spec_inuse().len() == 0,
    {
        Self { command_queues_unused: Vec::new(), command_queues_inuse: Vec::new() }
    }

    /// Check a cleared queue out of the pool, or allocate a fresh one.
    pub fn get_unused(&mut self) -> (r: Vec<CommandRecord>)
        requires
            old(self).wf(),
        ensures
            final(self).wf(),
            final(self).spec_inuse() == old(self).spec_inuse(),
            r@.len() == 0,
    {
        let r = match self.command_queues_unused.pop() {
            Some(mut queue) => {
                queue.clear();
                queue
            },
            None => Vec::new(),
        };
        proof {
            assert forall|i: int|
                0 <= i < self.spec_unused().len() implies (#[trigger] self.spec_unused()[
                i
            ])@.len() == 0 by {
                assert(self.spec_unused()[i] == old(self).spec_unused()[i]);
            }
        }
        r
    }

    /// Record a filled queue as in use, to be drained at the next apply
    /// point.
    pub fn put_inuse(&mut self, queue: Vec<CommandRecord>)
        requires
            old(self).wf(),
        ensures
            final(self).wf(),
            final(self).spec_inuse() == old(self).spec_inuse().push(queue),
    {
        self.command_queues_inuse.push(queue);
        proof {
            assert(self.spec_unused() == old(self).spec_unused());
        }
    }

    /// Take the next in-use queue for draining.
    pub fn pop_inuse(&mut self) -> (r: Option<Vec<CommandRecord>>)
        requires
            old(self).wf(),
        ensures
            final(self).wf(),
            match r {
                Some(q) => old(self).spec_inuse().len() > 0 && q == old(self).spec_inuse().last()
                    && final(self).spec_inuse() == old(self).spec_inuse().drop_last(),
                None => old(self).spec_inuse().len() == 0 && final(self).spec_inuse() == old(
                    self,
                ).spec_inuse(),
            },
    {
        let r = self.command_queues_inuse.pop();
        proof {
            assert(self.spec_unused() == old(self).spec_unused());
        }
        r
    }

    /// Number of queues waiting to be drained.
    pub fn inuse_count(&self) -> (r: usize)
        ensures
            r == self.spec_inuse().len(),
    {
        self.command_queues_inuse.len()
    }

    /// Return a drained queue to the pool.
    pub fn put_unused(&mut self, queue: Vec<CommandRecord>)
        requires
            old(self).wf(),
        ensures
            final(self).wf(),
            final(self).spec_inuse() == old(self).spec_inuse(),
    {
        let mut queue = queue;
        queue.clear();
        self.command_queues_unused.push(queue);
        proof {
            assert forall|i: int|
                0 <= i < self.spec_unused().len() implies (#[trigger] self.spec_unused()[
                i
            ])@.len() == 0 by {
                if i < old(self).spec_unused().len() {
                    assert(self.spec_unused()[i] == old(self).spec_unused()[i]);
                }
            }
        }
    }
}

/// The deferred-command handle a running system writes through: spawns
/// reserve their entity key immediately, so the caller can refer to the
/// entity before it exists; the structural change itself waits in the
/// queue.
pub struct Commands {
    queue: Vec<CommandRecord>,
}

impl Commands {
    pub closed spec fn spec_queue(self) -> Seq<CommandRecord> {
        self.queue@
    }

    pub fn new(queue: Vec<CommandRecord>) -> (r: Self)
        ensures
            r.spec_queue() == queue@,
    {
        Self { queue }
    }

    /// Queue a spawn: a key is reserved now and handed back; the entity is
    /// created when the queue is drained.
    pub fn spawn(&mut self, entity_storage: &mut EntityStorage, records: Vec<ComponentRecord>)
        -> (key: EntityKey)
        requires
            old(entity_storage).wf(),
            old(entity_storage).spec_entities().barrier() < u32::MAX,
        ensures
            final(entity_storage).wf(),
            final(entity_storage).spec_entities().slots() == old(
                entity_storage,
            ).spec_entities().slots(),
            final(self).spec_queue() == old(self).spec_queue().push(
                CommandRecord::Spawn { reserved_key: key, records },
            ),
            final(entity_storage).spec_entities().spec_get(key) is None,
            // the reservation protocol: the key is fillable at once, or a
            // brand-new id that the next barrier landing makes fillable
            final(entity_storage).spec_entities().spec_can_fill(key) || (key.id >= old(
                entity_storage,
            ).spec_entities().slot_count() && key.id < final(entity_storage).spec_entities().barrier() && key.generation == 0),
            final(entity_storage).spec_entities().slot_count() == old(entity_storage).spec_entities().slot_count(),
    {
        let reserved_key = entity_storage.reserve_key();
        self.queue.push(CommandRecord::Spawn { reserved_key, records });
        reserved_key
    }

    /// Queue a despawn of the entity the key names.
    pub fn despawn(&mut self, entity_key: EntityKey)
        ensures
            final(self).spec_queue() == old(self).spec_queue().push(
                CommandRecord::Despawn { entity_key },
            ),
    {
        self.queue.push(CommandRecord::Despawn { entity_key });
    }

    /// Hand the filled queue back for the world to drain.
    pub fn into_queue(self) -> (r: Vec<CommandRecord>)
        ensures
            r@ == self.spec_queue(),
    {
        self.queue
    }
}

} // verus!
