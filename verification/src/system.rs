//! Registered systems: their declared parameters (what world data each one
//! reads or writes) and their ordering constraints.  Running a system's body
//! is the embedding program's job; this module owns everything the engine
//! decides about systems — identity, deduplication, parameter data, access
//! declarations, and the `before`/`after` constraint sets the scheduler
//! consumes.

use vstd::prelude::*;
use crate::component::ComponentRecord;
use crate::dependency::QueryId;
use crate::query_filter::FilterElem;
use crate::resource::ResourceId;

verus! {

/// Dense id of a registered system.
#[derive(Ord, PartialOrd, Eq, PartialEq, Structural, Clone, Copy, Hash, Debug)]
pub struct SystemId(pub u32);

/// How a system touches a resource or component.
#[derive(Eq, PartialEq, Structural, Clone, Copy, Debug)]
pub enum RefType {
    Shared,
    Exclusive,
    Owned,
}

/// Resolved identity of one system parameter, produced at initialization.
#[derive(Eq, PartialEq, Structural, Clone, Copy, Debug)]
pub enum SystemParamId {
    Resource(ResourceId, RefType),
    Query(QueryId),
    NotRelevant,
}

/// One thing a system touches.
#[derive(Eq, PartialEq, Structural, Clone, Copy, Debug)]
pub enum AccessTarget {
    Component(u32),
    Resource(u64),
}

/// One declared access: a target and how it is borrowed.
#[derive(Eq, PartialEq, Structural, Clone, Copy, Debug)]
pub struct Access {
    pub target: AccessTarget,
    pub kind: RefType,
}

/// Two access lists conflict when they touch a common target and at least
/// one side needs it exclusively.
pub open spec fn accesses_conflict(a: Seq<Access>, b: Seq<Access>) -> bool {
    exists|i: int, j: int|
        0 <= i < a.len() && 0 <= j < b.len() && (#[trigger] a[i]).target == (#[trigger] b[j]).target
            && (a[i].kind != RefType::Shared || b[j].kind != RefType::Shared)
}

/// Decide whether two access lists conflict.
pub fn check_conflict(a: &Vec<Access>, b: &Vec<Access>) -> (r: bool)
    ensures
        r == accesses_conflict(a@, b@),
{
    let mut i: usize = 0;
    while i < a.len()
        invariant
            i <= a@.len(),
            forall|i2: int, j2: int|
                0 <= i2 < i && 0 <= j2 < b@.len() ==> !((#[trigger] a@[i2]).target == (
                #[trigger] b@[j2]).target && (a@[i2].kind != RefType::Shared || b@[j2].kind
                    != RefType::Shared)),
        decreases a@.len() - i,
    {
        let mut j: usize = 0;
        while j < b.len()
            invariant
                i < a@.len(),
                j <= b@.len(),
                forall|j2: int|
                    0 <= j2 < j ==> !((a@[i as int]).target == (#[trigger] b@[j2]).target && (a@[
                        i as int
                    ].kind != RefType::Shared || b@[j2].kind != RefType::Shared)),
            decreases b@.len() - j,
        {
            let conflicting = target_eq(a[i].target, b[j].target) && !(matches!(
                a[i].kind,
                RefType::Shared,
            ) && matches!(b[j].kind, RefType::Shared));
            if conflicting {
                proof {
                    assert(0 <= i < a@.len() && 0 <= j < b@.len() && (a@[i as int]).target == (b@[
                        j as int
                    ]).target && (a@[i as int].kind != RefType::Shared || b@[j as int].kind
                        != RefType::Shared));
                }
                return true;
            }
            j = j + 1;
        }
        i = i + 1;
    }
    false
}

/// Compare two access targets.
fn target_eq(a: AccessTarget, b: AccessTarget) -> (r: bool)
    ensures
        r == (a == b),
{
    match (a, b) {
        (AccessTarget::Component(x), AccessTarget::Component(y)) => x == y,
        (AccessTarget::Resource(x), AccessTarget::Resource(y)) => x == y,
        _ => false,
    }
}

/// One declared system parameter: what the system will ask for when it
/// runs.  Component types and resources are named by their 64-bit type
/// keys; the engine resolves them to dense ids at initialization.
pub enum ParamDecl {
    /// Read-only resource access.
    Res(u64),
    /// Mutable resource access.
    ResMut(u64),
    /// The resource is taken out of the world.
    ResOwned(u64),
    /// A query: the component types (each with its full description, so
    /// initialization can register it) with their borrow kinds, and the
    /// filter.
    Query { comps: Vec<(ComponentRecord, RefType)>, filter: Vec<FilterElem> },
    /// A deferred-command handle; it carries no data access of its own.
    Commands,
}

/// One registered system: a caller-supplied identity key (two registrations
/// with the same key are the same system) and its declared parameters.
pub struct SystemDecl {
    pub key: u64,
    pub params: Vec<ParamDecl>,
}

/// Ordering constraints of one system.
#[derive(Debug)]
pub struct Constraint {
    pub system_id: SystemId,
    pub after: Vec<u32>,
    pub before: Vec<u32>,
}

impl Constraint {
    pub fn new(system_id: SystemId) -> (r: Self)
        ensures
            r.system_id == system_id,
            r.after@.len() == 0,
            r.before@.len() == 0,
    {
        Self { system_id, after: Vec::new(), before: Vec::new() }
    }
}

/// Storage for systems: declarations, per-system constraints, and the
/// per-system parameter data and access lists computed at initialization.
pub struct Systems {
    system_vec: Vec<SystemDecl>,
    constraints: Vec<Constraint>,
    system_param_data: Vec<Vec<SystemParamId>>,
    accesses: Vec<Vec<Access>>,
}

impl Systems {
    pub closed spec fn spec_systems(self) -> Seq<SystemDecl> {
        self.system_vec@
    }

    pub closed spec fn spec_constraints(self) -> Seq<Constraint> {
        self.constraints@
    }

    pub closed spec fn spec_param_data(self) -> Seq<Vec<SystemParamId>> {
        self.system_param_data@
    }

    pub closed spec fn spec_accesses(self) -> Seq<Vec<Access>> {
        self.accesses@
    }

    /// Is some system registered under this key?
    pub open spec fn has_system_key(self, key: u64) -> bool {
        exists|s: int| 0 <= s < self.spec_systems().len() && self.spec_systems()[s].key == key
    }

    /// The id registered for a key (unique by `wf`).
    pub open spec fn spec_system_id_of(self, key: u64) -> int {
        choose|s: int| 0 <= s < self.spec_systems().len() && self.spec_systems()[s].key == key
    }

    pub open spec fn wf(self) -> bool {
        &&& self.spec_constraints().len() == self.spec_systems().len()
        &&& self.spec_systems().len() <= u32::MAX
        &&& forall|s: int|
            0 <= s < self.spec_constraints().len() ==> (#[trigger] self.spec_constraints()[
                s
            ]).system_id == SystemId(s as u32)
        &&& forall|s1: int, s2: int|
            0 <= s1 < s2 < self.spec_systems().len() ==> (#[trigger] self.spec_systems()[
                s1
            ]).key != (#[trigger] self.spec_systems()[s2]).key
    }

    pub fn new() -> (r: Self)
        ensures
            r.wf(),
            r.spec_systems().len() == 0,
            r.spec_param_data().len() == 0,
    {
        Systems {
            system_vec: Vec::new(),
            constraints: Vec::new(),
            system_param_data: Vec::new(),
            accesses: Vec::new(),
        }
    }

    pub fn len(&self) -> (r: usize)
        ensures
            r == self.spec_systems().len(),
    {
        self.system_vec.len()
    }

    /// Register a system; a declaration whose key was seen before names the
    /// already-registered system and stores nothing new, so ids stay dense
    /// and sequential in first-seen order.
    pub fn add_system(&mut self, value: SystemDecl) -> (id: SystemId)
        requires
            old(self).wf(),
        ensures
            final(self).wf(),
            id.0 < final(self).spec_systems().len(),
            old(self).spec_systems().len() < u32::MAX ==> final(self).spec_systems()[
                id.0 as int
            ].key == value.key,
            final(self).spec_systems().len() >= old(self).spec_systems().len(),
            forall|s: int|
                0 <= s < old(self).spec_systems().len() ==> final(self).spec_systems()[s] == old(self).spec_systems()[s] && final(self).spec_constraints()[s] == old(self).spec_constraints()[s],
            // a seen key stores nothing
            old(self).has_system_key(value.key) ==> *final(self) == *old(self),
            // a new key appends exactly one declaration with a fresh dense id
            !old(self).has_system_key(value.key) && old(self).spec_systems().len() < u32::MAX ==> {
                &&& id.0 == old(self).spec_systems().len()
                &&& final(self).spec_systems() == old(self).spec_systems().push(value)
                &&& final(self).spec_constraints().len() == old(self).spec_constraints().len() + 1
                &&& final(self).spec_constraints().last().after@.len() == 0
                &&& final(self).spec_constraints().last().before@.len() == 0
                &&& final(self).spec_param_data() == old(self).spec_param_data()
                &&& final(self).spec_accesses() == old(self).spec_accesses()
            },
            !old(self).has_system_key(value.key) && old(self).spec_systems().len() == u32::MAX
                ==> *final(self) == *old(self),
    {
        let key = value.key;
        self.add_system_inner(value, key)
    }

    /// The work of `add_system`, keyed by an explicit configuration key.
    pub fn add_system_inner(&mut self, value: SystemDecl, sys_config_id: u64) -> (id: SystemId)
        requires
            old(self).wf(),
        ensures
            final(self).wf(),
            id.0 < final(self).spec_systems().len(),
            old(self).spec_systems().len() < u32::MAX ==> final(self).spec_systems()[
                id.0 as int
            ].key == value.key,
            final(self).spec_systems().len() >= old(self).spec_systems().len(),
            forall|s: int|
                0 <= s < old(self).spec_systems().len() ==> final(self).spec_systems()[s] == old(self).spec_systems()[s] && final(self).spec_constraints()[s] == old(self).spec_constraints()[s],
            old(self).has_system_key(value.key) ==> *final(self) == *old(self),
            !old(self).has_system_key(value.key) && old(self).spec_systems().len() < u32::MAX ==> {
                &&& id.0 == old(self).spec_systems().len()
                &&& final(self).spec_systems() == old(self).spec_systems().push(value)
                &&& final(self).spec_constraints().len() == old(self).spec_constraints().len() + 1
                &&& final(self).spec_constraints().last().after@.len() == 0
                &&& final(self).spec_constraints().last().before@.len() == 0
                &&& final(self).spec_param_data() == old(self).spec_param_data()
                &&& final(self).spec_accesses() == old(self).spec_accesses()
            },
            !old(self).has_system_key(value.key) && old(self).spec_systems().len() == u32::MAX
                ==> *final(self) == *old(self),
    {
        let mut s: usize = 0;
        while s < self.system_vec.len()
            invariant
                self.wf(),
                s <= self.spec_systems().len(),
                forall|s2: int|
                    0 <= s2 < s ==> (#[trigger] self.spec_systems()[s2]).key != value.key,
            decreases self.spec_systems().len() - s,
        {
            if self.system_vec[s].key == value.key {
                proof {
                    assert(self.spec_systems()[s as int].key == value.key);
                }
                return SystemId(s as u32);
            }
            s = s + 1;
        }
        if self.system_vec.len() >= u32::MAX as usize {
            // the id space is full: the last registered system stands in,
            // mirroring saturation rather than wrapping
            return SystemId((self.system_vec.len() - 1) as u32);
        }
        let next_id = self.system_vec.len() as u32;
        self.system_vec.push(value);
        self.constraints.push(Constraint::new(SystemId(next_id)));
        SystemId(next_id)
    }

    /// The declaration behind a system id.
    pub fn get_system(&self, system_id: SystemId) -> (r: Option<&SystemDecl>)
        ensures
            match r {
                Some(d) => system_id.0 < self.spec_systems().len() && *d == self.spec_systems()[
                    system_id.0 as int
                ],
                None => system_id.0 >= self.spec_systems().len(),
            },
    {
        if (system_id.0 as usize) < self.system_vec.len() {
            Some(&self.system_vec[system_id.0 as usize])
        } else {
            None
        }
    }

    /// The parameter data computed at initialization for a system.
    pub fn get_param_data(&self, system_id: SystemId) -> (r: Option<&Vec<SystemParamId>>)
        ensures
            match r {
                Some(d) => system_id.0 < self.spec_param_data().len() && *d
                    == self.spec_param_data()[system_id.0 as int],
                None => system_id.0 >= self.spec_param_data().len(),
            },
    {
        if (system_id.0 as usize) < self.system_param_data.len() {
            Some(&self.system_param_data[system_id.0 as usize])
        } else {
            None
        }
    }

    /// The access list computed at initialization for a system.
    pub fn get_accesses(&self, system_id: SystemId) -> (r: Option<&Vec<Access>>)
        ensures
            match r {
                Some(d) => system_id.0 < self.spec_accesses().len() && *d == self.spec_accesses()[
                    system_id.0 as int
                ],
                None => system_id.0 >= self.spec_accesses().len(),
            },
    {
        if (system_id.0 as usize) < self.accesses.len() {
            Some(&self.accesses[system_id.0 as usize])
        } else {
            None
        }
    }

    pub fn get_accesses_all(&self) -> (r: &Vec<Vec<Access>>)
        ensures
            r@ == self.spec_accesses(),
    {
        &self.accesses
    }

    pub fn get_constraints(&self) -> (r: &Vec<Constraint>)
        ensures
            r@ == self.spec_constraints(),
    {
        &self.constraints
    }

    /// Record `after`/`before` constraints for one system, mirroring each
    /// onto the named systems' opposite sets.  Existing recordings are
    /// kept; each listed system that exists gains the edge in both
    /// directions.
    pub fn add_system_constraints(&mut self, system_id: SystemId, after: &Vec<SystemId>, before: &Vec<SystemId>)
        requires
            old(self).wf(),
            system_id.0 < old(self).spec_systems().len(),
        ensures
            final(self).wf(),
            final(self).spec_systems() == old(self).spec_systems(),
            final(self).spec_param_data() == old(self).spec_param_data(),
            final(self).spec_accesses() == old(self).spec_accesses(),
            final(self).spec_constraints().len() == old(self).spec_constraints().len(),
            forall|s: int|
                0 <= s < old(self).spec_constraints().len() ==> constraint_grows(
                    #[trigger] old(self).spec_constraints()[s],
                    final(self).spec_constraints()[s],
                ),
            forall|k: int|
                0 <= k < after@.len() && (#[trigger] after@[k]).0 < old(
                    self,
                ).spec_constraints().len() ==> final(self).spec_constraints()[
                    system_id.0 as int
                ].after@.contains(after@[k].0) && final(self).spec_constraints()[
                    after@[k].0 as int
                ].before@.contains(system_id.0),
            forall|k: int|
                0 <= k < before@.len() && (#[trigger] before@[k]).0 < old(
                    self,
                ).spec_constraints().len() ==> final(self).spec_constraints()[
                    system_id.0 as int
                ].before@.contains(before@[k].0) && final(self).spec_constraints()[
                    before@[k].0 as int
                ].after@.contains(system_id.0),
    {
        self.insert_constraints(system_id, after, true);
        let ghost mid = *self;
        self.insert_constraints(system_id, before, false);
        proof {
            assert forall|s: int|
                0 <= s < old(self).spec_constraints().len() implies constraint_grows(
                #[trigger] old(self).spec_constraints()[s],
                self.spec_constraints()[s],
            ) by {
                lemma_grows_trans(
                    old(self).spec_constraints()[s],
                    mid.spec_constraints()[s],
                    self.spec_constraints()[s],
                );
            }
            assert forall|k: int|
                0 <= k < after@.len() && (#[trigger] after@[k]).0 < old(
                    self,
                ).spec_constraints().len() implies self.spec_constraints()[
                system_id.0 as int
            ].after@.contains(after@[k].0) && self.spec_constraints()[
                after@[k].0 as int
            ].before@.contains(system_id.0) by {
                lemma_prefix_contains(
                    mid.spec_constraints()[system_id.0 as int].after@,
                    self.spec_constraints()[system_id.0 as int].after@,
                    after@[k].0,
                );
                lemma_prefix_contains(
                    mid.spec_constraints()[after@[k].0 as int].before@,
                    self.spec_constraints()[after@[k].0 as int].before@,
                    system_id.0,
                );
            }
        }
    }

    /// Record one direction: with `is_after` the listed systems must run
    /// before `system_id`; otherwise after it.
    #[verifier::loop_isolation(false)]
    fn insert_constraints(&mut self, system_id: SystemId, con_sys_ids: &Vec<SystemId>, is_after: bool)
        requires
            old(self).wf(),
            system_id.0 < old(self).spec_systems().len(),
        ensures
            final(self).wf(),
            final(self).spec_systems() == old(self).spec_systems(),
            final(self).spec_param_data() == old(self).spec_param_data(),
            final(self).spec_accesses() == old(self).spec_accesses(),
            final(self).spec_constraints().len() == old(self).spec_constraints().len(),
            forall|s: int|
                0 <= s < old(self).spec_constraints().len() ==> constraint_grows(
                    #[trigger] old(self).spec_constraints()[s],
                    final(self).spec_constraints()[s],
                ),
            // each listed system that exists is recorded, and mirrored on
            // the listed system's opposite set
            forall|k: int|
                0 <= k < con_sys_ids@.len() && (#[trigger] con_sys_ids@[k]).0 < old(
                    self,
                ).spec_constraints().len() ==> if is_after {
                    final(self).spec_constraints()[system_id.0 as int].after@.contains(
                        con_sys_ids@[k].0,
                    ) && final(self).spec_constraints()[con_sys_ids@[k].0 as int].before@.contains(
                        system_id.0,
                    )
                } else {
                    final(self).spec_constraints()[system_id.0 as int].before@.contains(
                        con_sys_ids@[k].0,
                    ) && final(self).spec_constraints()[con_sys_ids@[k].0 as int].after@.contains(
                        system_id.0,
                    )
                },
    {
        let mut k: usize = 0;
        while k < con_sys_ids.len()
            invariant
                self.wf(),
                self.spec_systems() == old(self).spec_systems(),
                self.spec_param_data() == old(self).spec_param_data(),
                self.spec_accesses() == old(self).spec_accesses(),
                self.spec_constraints().len() == old(self).spec_constraints().len(),
                system_id.0 < self.spec_systems().len(),
                k <= con_sys_ids@.len(),
                forall|s: int|
                    0 <= s < old(self).spec_constraints().len() ==> constraint_grows(
                        #[trigger] old(self).spec_constraints()[s],
                        self.spec_constraints()[s],
                    ),
                forall|k2: int|
                    0 <= k2 < k && (#[trigger] con_sys_ids@[k2]).0 < old(
                        self,
                    ).spec_constraints().len() ==> if is_after {
                        self.spec_constraints()[system_id.0 as int].after@.contains(
                            con_sys_ids@[k2].0,
                        ) && self.spec_constraints()[con_sys_ids@[k2].0 as int].before@.contains(
                            system_id.0,
                        )
                    } else {
                        self.spec_constraints()[system_id.0 as int].before@.contains(
                            con_sys_ids@[k2].0,
                        ) && self.spec_constraints()[con_sys_ids@[k2].0 as int].after@.contains(
                            system_id.0,
                        )
                    },
            decreases con_sys_ids@.len() - k,
        {
            let other = con_sys_ids[k];
            let ghost iter_pre = *self;
            if (other.0 as usize) < self.constraints.len() {
                let sid = system_id.0 as usize;
                let oid = other.0 as usize;
                let ghost pre = *self;
                let mut c = Constraint::new(SystemId(0));
                core::mem::swap(&mut self.constraints[sid], &mut c);
                if is_after {
                    c.after.push(other.0);
                } else {
                    c.before.push(other.0);
                }
                core::mem::swap(&mut self.constraints[sid], &mut c);
                proof {
                    assert(self.spec_constraints()[sid as int].system_id == pre.spec_constraints()[
                        sid as int
                    ].system_id);
                }
                let ghost pre2 = *self;
                let mut c2 = Constraint::new(SystemId(0));
                core::mem::swap(&mut self.constraints[oid], &mut c2);
                if is_after {
                    c2.before.push(system_id.0);
                } else {
                    c2.after.push(system_id.0);
                }
                core::mem::swap(&mut self.constraints[oid], &mut c2);
                proof {
                    assert(self.spec_constraints()[oid as int].system_id == pre2.spec_constraints()[
                        oid as int
                    ].system_id);
                }
                proof {
                    let sidi = system_id.0 as int;
                    let oidi = other.0 as int;
                    // each touched entry only grew
                    assert forall|s2: int|
                        0 <= s2 < iter_pre.spec_constraints().len() implies constraint_grows(
                        #[trigger] iter_pre.spec_constraints()[s2],
                        self.spec_constraints()[s2],
                    ) by {
                        lemma_push_prefix(pre.spec_constraints()[sidi].after@, other.0);
                        lemma_push_prefix(pre.spec_constraints()[sidi].before@, other.0);
                        lemma_push_prefix(pre2.spec_constraints()[oidi].after@, system_id.0);
                        lemma_push_prefix(pre2.spec_constraints()[oidi].before@, system_id.0);
                        lemma_grows_refl(iter_pre.spec_constraints()[s2]);
                        if s2 == sidi || s2 == oidi {
                            lemma_grows_refl(pre2.spec_constraints()[s2]);
                            lemma_grows_refl(pre.spec_constraints()[s2]);
                            lemma_grows_trans(
                                iter_pre.spec_constraints()[s2],
                                pre2.spec_constraints()[s2],
                                self.spec_constraints()[s2],
                            );
                        }
                    }
                    // the new pair is recorded
                    if is_after {
                        assert(self.spec_constraints()[sidi].after@.contains(other.0)) by {
                            let aft = self.spec_constraints()[sidi].after@;
                            if sidi == oidi {
                                assert(aft.last() == other.0 || aft[aft.len() - 1] == other.0
                                    || aft.contains(other.0)) by {
                                    assert(pre2.spec_constraints()[sidi].after@.last() == other.0);
                                    lemma_prefix_contains(
                                        pre2.spec_constraints()[sidi].after@,
                                        aft,
                                        other.0,
                                    );
                                }
                            } else {
                                assert(aft.last() == other.0);
                            }
                        }
                        assert(self.spec_constraints()[oidi].before@.contains(system_id.0)) by {
                            assert(self.spec_constraints()[oidi].before@.last() == system_id.0);
                        }
                    } else {
                        assert(self.spec_constraints()[sidi].before@.contains(other.0)) by {
                            let bef = self.spec_constraints()[sidi].before@;
                            if sidi == oidi {
                                assert(pre2.spec_constraints()[sidi].before@.last() == other.0);
                                lemma_prefix_contains(
                                    pre2.spec_constraints()[sidi].before@,
                                    bef,
                                    other.0,
                                );
                            } else {
                                assert(bef.last() == other.0);
                            }
                        }
                        assert(self.spec_constraints()[oidi].after@.contains(system_id.0)) by {
                            assert(self.spec_constraints()[oidi].after@.last() == system_id.0);
                        }
                    }
                    // growth composes and old recordings persist
                    assert forall|s2: int|
                        0 <= s2 < old(self).spec_constraints().len() implies constraint_grows(
                        #[trigger] old(self).spec_constraints()[s2],
                        self.spec_constraints()[s2],
                    ) by {
                        lemma_grows_trans(
                            old(self).spec_constraints()[s2],
                            iter_pre.spec_constraints()[s2],
                            self.spec_constraints()[s2],
                        );
                    }
                    assert forall|k2: int|
                        0 <= k2 < k + 1 && (#[trigger] con_sys_ids@[k2]).0 < old(
                            self,
                        ).spec_constraints().len() implies (if is_after {
                        self.spec_constraints()[system_id.0 as int].after@.contains(
                            con_sys_ids@[k2].0,
                        ) && self.spec_constraints()[con_sys_ids@[k2].0 as int].before@.contains(
                            system_id.0,
                        )
                    } else {
                        self.spec_constraints()[system_id.0 as int].before@.contains(
                            con_sys_ids@[k2].0,
                        ) && self.spec_constraints()[con_sys_ids@[k2].0 as int].after@.contains(
                            system_id.0,
                        )
                    }) by {
                        if k2 < k {
                            let c_sid_pre = iter_pre.spec_constraints()[system_id.0 as int];
                            let c_sid = self.spec_constraints()[system_id.0 as int];
                            let c_oth_pre = iter_pre.spec_constraints()[con_sys_ids@[k2].0 as int];
                            let c_oth = self.spec_constraints()[con_sys_ids@[k2].0 as int];
                            if is_after {
                                lemma_prefix_contains(
                                    c_sid_pre.after@,
                                    c_sid.after@,
                                    con_sys_ids@[k2].0,
                                );
                                lemma_prefix_contains(c_oth_pre.before@, c_oth.before@, system_id.0);
                            } else {
                                lemma_prefix_contains(
                                    c_sid_pre.before@,
                                    c_sid.before@,
                                    con_sys_ids@[k2].0,
                                );
                                lemma_prefix_contains(c_oth_pre.after@, c_oth.after@, system_id.0);
                            }
                        }
                    }
                }
            }
            k = k + 1;
        }
    }

    /// Take one system's declared parameters out for initialization; the
    /// declaration keeps an empty list.  Initialization consumes the
    /// declarations and leaves resolved parameter data in their place.
    pub fn take_params(&mut self, s: usize) -> (r: Vec<ParamDecl>)
        requires
            old(self).wf(),
            s < old(self).spec_systems().len(),
        ensures
            final(self).wf(),
            final(self).spec_systems().len() == old(self).spec_systems().len(),
            final(self).spec_constraints() == old(self).spec_constraints(),
            final(self).spec_param_data() == old(self).spec_param_data(),
            final(self).spec_accesses() == old(self).spec_accesses(),
            r == old(self).spec_systems()[s as int].params,
            forall|s2: int|
                0 <= s2 < old(self).spec_systems().len() ==> (#[trigger] final(self).spec_systems()[s2]).key == old(self).spec_systems()[s2].key,
    {
        let ghost pre = *self;
        let mut decl = SystemDecl { key: self.system_vec[s].key, params: Vec::new() };
        core::mem::swap(&mut self.system_vec[s], &mut decl);
        let SystemDecl { key, params } = decl;
        let mut back = SystemDecl { key, params: Vec::new() };
        core::mem::swap(&mut self.system_vec[s], &mut back);
        proof {
            assert forall|s2: int|
                0 <= s2 < pre.spec_systems().len() implies (#[trigger] self.spec_systems()[
                s2
            ]).key == pre.spec_systems()[s2].key by {}
            assert forall|s1: int, s2: int|
                0 <= s1 < s2 < self.spec_systems().len() implies (#[trigger] self.spec_systems()[
                s1
            ]).key != (#[trigger] self.spec_systems()[s2]).key by {
                assert(pre.spec_systems()[s1].key != pre.spec_systems()[s2].key);
            }
        }
        params
    }

    /// Drop earlier initialization results so the systems can be
    /// initialized afresh.
    pub fn reset_init_data(&mut self)
        requires
            old(self).wf(),
        ensures
            final(self).wf(),
            final(self).spec_systems() == old(self).spec_systems(),
            final(self).spec_constraints() == old(self).spec_constraints(),
            final(self).spec_param_data().len() == 0,
            final(self).spec_accesses().len() == 0,
    {
        self.system_param_data.clear();
        self.accesses.clear();
    }

    /// Record the initialization results for one system, in id order: its
    /// resolved parameter ids and its access list.
    pub fn push_init_data(&mut self, params: Vec<SystemParamId>, accesses: Vec<Access>)
        requires
            old(self).wf(),
        ensures
            final(self).wf(),
            final(self).spec_systems() == old(self).spec_systems(),
            final(self).spec_constraints() == old(self).spec_constraints(),
            final(self).spec_param_data() == old(self).spec_param_data().push(params),
            final(self).spec_accesses() == old(self).spec_accesses().push(accesses),
    {
        self.system_param_data.push(params);
        self.accesses.push(accesses);
    }
}

/// Constraint sets only ever grow: the recorded `after`/`before` ids stay
/// where they are and new ones are appended.
pub open spec fn constraint_grows(c1: Constraint, c2: Constraint) -> bool {
    &&& c1.system_id == c2.system_id
    &&& c1.after@.is_prefix_of(c2.after@)
    &&& c1.before@.is_prefix_of(c2.before@)
}

pub proof fn lemma_grows_refl(c: Constraint)
    ensures
        constraint_grows(c, c),
{
    assert(c.after@ =~= c.after@.subrange(0, c.after@.len() as int));
    assert(c.before@ =~= c.before@.subrange(0, c.before@.len() as int));
}

pub proof fn lemma_push_prefix(s: Seq<u32>, x: u32)
    ensures
        s.is_prefix_of(s.push(x)),
{
    assert(s =~= s.push(x).subrange(0, s.len() as int));
}

pub proof fn lemma_grows_trans(c1: Constraint, c2: Constraint, c3: Constraint)
    requires
        constraint_grows(c1, c2),
        constraint_grows(c2, c3),
    ensures
        constraint_grows(c1, c3),
{
    assert(c1.after@ =~= c3.after@.subrange(0, c1.after@.len() as int)) by {
        assert(c1.after@ =~= c2.after@.subrange(0, c1.after@.len() as int));
        assert(c2.after@ =~= c3.after@.subrange(0, c2.after@.len() as int));
    }
    assert(c1.before@ =~= c3.before@.subrange(0, c1.before@.len() as int)) by {
        assert(c1.before@ =~= c2.before@.subrange(0, c1.before@.len() as int));
        assert(c2.before@ =~= c3.before@.subrange(0, c2.before@.len() as int));
    }
}

pub proof fn lemma_prefix_contains(s1: Seq<u32>, s2: Seq<u32>, x: u32)
    requires
        s1.is_prefix_of(s2),
        s1.contains(x),
    ensures
        s2.contains(x),
{
    let i = choose|i: int| 0 <= i < s1.len() && s1[i] == x;
    assert(s2[i] == x) by {
        assert(s1 =~= s2.subrange(0, s1.len() as int));
    }
}

/// The builder a caller assembles a group registration from: the systems
/// themselves, optional `after`/`before` system groups, and `chain` to
/// order the group sequentially.
pub struct SystemConfig {
    pub systems: Vec<SystemDecl>,
    pub chain: bool,
    pub after: Vec<SystemDecl>,
    pub before: Vec<SystemDecl>,
}

impl SystemConfig {
    pub fn build(systems: Vec<SystemDecl>) -> (r: Self)
        ensures
            r.systems == systems,
            !r.chain,
            r.after@.len() == 0,
            r.before@.len() == 0,
    {
        Self { systems, chain: false, after: Vec::new(), before: Vec::new() }
    }

    /// Order the configured systems sequentially among themselves.
    pub fn chain(self) -> (r: Self)
        ensures
            r.systems == self.systems,
            r.chain,
            r.after == self.after,
            r.before == self.before,
    {
        Self { chain: true, ..self }
    }

    /// The configured systems run after all of the given ones.
    pub fn after(self, after_systems: Vec<SystemDecl>) -> (r: Self)
        ensures
            r.systems == self.systems,
            r.chain == self.chain,
            r.after == after_systems,
            r.before == self.before,
    {
        Self { after: after_systems, ..self }
    }

    /// The configured systems run before all of the given ones.
    pub fn before(self, before_systems: Vec<SystemDecl>) -> (r: Self)
        ensures
            r.systems == self.systems,
            r.chain == self.chain,
            r.after == self.after,
            r.before == before_systems,
    {
        Self { before: before_systems, ..self }
    }
}

impl Systems {
    /// Register a configured group: its systems in declaration order, the
    /// systems it is ordered against, the group-level `after`/`before`
    /// constraints recorded in both directions, and the chain links.  The
    /// stated guarantees hold whenever the id space can take the whole
    /// group (`u32::MAX` systems — unreachable in practice).
    #[verifier::loop_isolation(false)]
    pub fn add_system_builder(&mut self, config: SystemConfig) -> (ids: Vec<SystemId>)
        requires
            old(self).wf(),
        ensures
            final(self).wf(),
            ids@.len() == config.systems@.len(),
            final(self).spec_systems().len() >= old(self).spec_systems().len(),
            forall|b: int| 0 <= b < ids@.len() ==> (#[trigger] ids@[b]).0 < final(self).spec_systems().len(),
            old(self).spec_systems().len() + config.systems@.len() + config.after@.len()
                + config.before@.len() <= u32::MAX ==> {
                // the group's systems are registered under their keys
                &&& forall|b: int|
                    0 <= b < ids@.len() ==> final(self).spec_systems()[
                        (#[trigger] ids@[b]).0 as int
                    ].key == config.systems@[b].key
                // the ordering systems exist
                &&& forall|j: int|
                    0 <= j < config.after@.len() ==> final(self).has_system_key(
                        (#[trigger] config.after@[j]).key,
                    )
                &&& forall|j: int|
                    0 <= j < config.before@.len() ==> final(self).has_system_key(
                        (#[trigger] config.before@[j]).key,
                    )
                // every group member records each after()/before() system,
                // found under its key
                &&& forall|b: int, j: int|
                    0 <= b < ids@.len() && 0 <= j < config.after@.len()
                        ==> final(self).spec_constraints()[(#[trigger] ids@[b]).0 as int].after@.contains(
                        final(self).spec_system_id_of((#[trigger] config.after@[j]).key) as u32,
                    )
                &&& forall|b: int, j: int|
                    0 <= b < ids@.len() && 0 <= j < config.before@.len()
                        ==> final(self).spec_constraints()[(#[trigger] ids@[b]).0 as int].before@.contains(
                        final(self).spec_system_id_of((#[trigger] config.before@[j]).key) as u32,
                    )
                // each after() system mirrors the edge: its own before
                // set gains every group member
                &&& forall|b: int, j: int|
                    0 <= b < ids@.len() && 0 <= j < config.after@.len()
                        ==> final(self).spec_constraints()[
                        final(self).spec_system_id_of((#[trigger] config.after@[j]).key) as int
                    ].before@.contains((#[trigger] ids@[b]).0)
                // each before() system mirrors the edge: its own after
                // set gains every group member, which is what makes
                // before() order the runs
                &&& forall|b: int, j: int|
                    0 <= b < ids@.len() && 0 <= j < config.before@.len()
                        ==> final(self).spec_constraints()[
                        final(self).spec_system_id_of((#[trigger] config.before@[j]).key) as int
                    ].after@.contains((#[trigger] ids@[b]).0)
                // chain() orders consecutive group members, recorded on
                // both sides
                &&& config.chain ==> forall|i: int|
                    1 <= i < ids@.len() ==> final(self).spec_constraints()[
                        (#[trigger] ids@[i]).0 as int
                    ].after@.contains(ids@[i - 1].0) && final(self).spec_constraints()[
                        ids@[i - 1].0 as int
                    ].before@.contains(ids@[i].0)
            },
    {
        let ghost fits = old(self).spec_systems().len() + config.systems@.len()
            + config.after@.len() + config.before@.len() <= u32::MAX;
        let SystemConfig { systems, chain, after, before } = config;
        let ghost systems_g = systems@;
        let ghost after_g = after@;
        let ghost before_g = before@;
        let mut systems = systems;
        let mut after = after;
        let mut before = before;
        let total_s: usize = systems.len();
        let total_a: usize = after.len();
        let total_b: usize = before.len();
        let mut ids: Vec<SystemId> = Vec::new();
        let mut i: usize = 0;
        while systems.len() > 0
            invariant
                self.wf(),
                total_s == systems_g.len(),
                i + systems@.len() == systems_g.len(),
                systems@ == systems_g.subrange(i as int, systems_g.len() as int),
                ids@.len() == i,
                self.spec_systems().len() >= old(self).spec_systems().len(),
                fits ==> self.spec_systems().len() <= old(self).spec_systems().len() + i,
                forall|b: int|
                    0 <= b < ids@.len() ==> (#[trigger] ids@[b]).0 < self.spec_systems().len(),
                fits ==> forall|b: int|
                    0 <= b < ids@.len() ==> self.spec_systems()[(#[trigger] ids@[b]).0 as int].key
                        == systems_g[b].key,
            decreases systems@.len(),
        {
            let decl = systems.remove(0);
            proof {
                assert(decl == systems_g[i as int]);
                assert(systems@ =~= systems_g.subrange(i + 1 as int, systems_g.len() as int));
            }
            let ghost pre = *self;
            let id = self.add_system(decl);
            ids.push(id);
            proof {
                if fits {
                    assert(pre.spec_systems().len() < u32::MAX);
                    assert forall|b: int|
                        0 <= b < ids@.len() implies self.spec_systems()[
                        (#[trigger] ids@[b]).0 as int
                    ].key == systems_g[b].key by {
                        if b < i {
                            assert(pre.spec_systems()[ids@[b].0 as int].key == systems_g[b].key);
                        }
                    }
                }
            }
            i = i + 1;
        }
        let mut after_ids: Vec<SystemId> = Vec::new();
        let mut j: usize = 0;
        while after.len() > 0
            invariant
                self.wf(),
                total_a == after_g.len(),
                j + after@.len() == after_g.len(),
                after@ == after_g.subrange(j as int, after_g.len() as int),
                after_ids@.len() == j,
                ids@.len() == systems_g.len(),
                self.spec_systems().len() >= old(self).spec_systems().len(),
                fits ==> self.spec_systems().len() <= old(self).spec_systems().len()
                    + systems_g.len() + j,
                forall|b: int|
                    0 <= b < ids@.len() ==> (#[trigger] ids@[b]).0 < self.spec_systems().len(),
                forall|b: int|
                    0 <= b < after_ids@.len() ==> (#[trigger] after_ids@[b]).0
                        < self.spec_systems().len(),
                fits ==> forall|b: int|
                    0 <= b < ids@.len() ==> self.spec_systems()[(#[trigger] ids@[b]).0 as int].key
                        == systems_g[b].key,
                fits ==> forall|b: int|
                    0 <= b < after_ids@.len() ==> self.spec_systems()[
                        (#[trigger] after_ids@[b]).0 as int
                    ].key == after_g[b].key,
            decreases after@.len(),
        {
            let decl = after.remove(0);
            proof {
                assert(decl == after_g[j as int]);
                assert(after@ =~= after_g.subrange(j + 1 as int, after_g.len() as int));
            }
            let ghost pre = *self;
            let id = self.add_system(decl);
            after_ids.push(id);
            proof {
                if fits {
                    assert(pre.spec_systems().len() < u32::MAX);
                    assert forall|b: int|
                        0 <= b < after_ids@.len() implies self.spec_systems()[
                        (#[trigger] after_ids@[b]).0 as int
                    ].key == after_g[b].key by {
                        if b < j {
                            assert(pre.spec_systems()[after_ids@[b].0 as int].key == after_g[
                                b
                            ].key);
                        }
                    }
                    assert forall|b: int|
                        0 <= b < ids@.len() implies self.spec_systems()[
                        (#[trigger] ids@[b]).0 as int
                    ].key == systems_g[b].key by {
                        assert(pre.spec_systems()[ids@[b].0 as int].key == systems_g[b].key);
                    }
                }
            }
            j = j + 1;
        }
        let mut before_ids: Vec<SystemId> = Vec::new();
        let mut j2: usize = 0;
        while before.len() > 0
            invariant
                self.wf(),
                total_b == before_g.len(),
                j2 + before@.len() == before_g.len(),
                before@ == before_g.subrange(j2 as int, before_g.len() as int),
                before_ids@.len() == j2,
                ids@.len() == systems_g.len(),
                after_ids@.len() == after_g.len(),
                self.spec_systems().len() >= old(self).spec_systems().len(),
                fits ==> self.spec_systems().len() <= old(self).spec_systems().len()
                    + systems_g.len() + after_g.len() + j2,
                forall|b: int|
                    0 <= b < ids@.len() ==> (#[trigger] ids@[b]).0 < self.spec_systems().len(),
                forall|b: int|
                    0 <= b < after_ids@.len() ==> (#[trigger] after_ids@[b]).0
                        < self.spec_systems().len(),
                forall|b: int|
                    0 <= b < before_ids@.len() ==> (#[trigger] before_ids@[b]).0
                        < self.spec_systems().len(),
                fits ==> forall|b: int|
                    0 <= b < ids@.len() ==> self.spec_systems()[(#[trigger] ids@[b]).0 as int].key
                        == systems_g[b].key,
                fits ==> forall|b: int|
                    0 <= b < after_ids@.len() ==> self.spec_systems()[
                        (#[trigger] after_ids@[b]).0 as int
                    ].key == after_g[b].key,
                fits ==> forall|b: int|
                    0 <= b < before_ids@.len() ==> self.spec_systems()[
                        (#[trigger] before_ids@[b]).0 as int
                    ].key == before_g[b].key,
            decreases before@.len(),
        {
            let decl = before.remove(0);
            proof {
                assert(decl == before_g[j2 as int]);
                assert(before@ =~= before_g.subrange(j2 + 1 as int, before_g.len() as int));
            }
            let ghost pre = *self;
            let id = self.add_system(decl);
            before_ids.push(id);
            proof {
                if fits {
                    assert(pre.spec_systems().len() < u32::MAX);
                    assert forall|b: int|
                        0 <= b < before_ids@.len() implies self.spec_systems()[
                        (#[trigger] before_ids@[b]).0 as int
                    ].key == before_g[b].key by {
                        if b < j2 {
                            assert(pre.spec_systems()[before_ids@[b].0 as int].key == before_g[
                                b
                            ].key);
                        }
                    }
                    assert forall|b: int|
                        0 <= b < ids@.len() implies self.spec_systems()[
                        (#[trigger] ids@[b]).0 as int
                    ].key == systems_g[b].key by {
                        assert(pre.spec_systems()[ids@[b].0 as int].key == systems_g[b].key);
                    }
                    assert forall|b: int|
                        0 <= b < after_ids@.len() implies self.spec_systems()[
                        (#[trigger] after_ids@[b]).0 as int
                    ].key == after_g[b].key by {
                        assert(pre.spec_systems()[after_ids@[b].0 as int].key == after_g[b].key);
                    }
                }
            }
            j2 = j2 + 1;
        }
        let ghost s_reg = *self;
        let mut k: usize = 0;
        while k < ids.len()
            invariant
                self.wf(),
                ids@.len() == systems_g.len(),
                after_ids@.len() == after_g.len(),
                before_ids@.len() == before_g.len(),
                self.spec_systems() == s_reg.spec_systems(),
                self.spec_param_data() == s_reg.spec_param_data(),
                self.spec_accesses() == s_reg.spec_accesses(),
                self.spec_constraints().len() == s_reg.spec_constraints().len(),
                forall|s2: int|
                    0 <= s2 < s_reg.spec_constraints().len() ==> constraint_grows(
                        #[trigger] s_reg.spec_constraints()[s2],
                        self.spec_constraints()[s2],
                    ),
                forall|b: int|
                    0 <= b < ids@.len() ==> (#[trigger] ids@[b]).0 < self.spec_systems().len(),
                forall|b: int|
                    0 <= b < after_ids@.len() ==> (#[trigger] after_ids@[b]).0
                        < self.spec_systems().len(),
                forall|b: int|
                    0 <= b < before_ids@.len() ==> (#[trigger] before_ids@[b]).0
                        < self.spec_systems().len(),
                forall|b: int, j3: int|
                    0 <= b < k && 0 <= j3 < after_ids@.len() ==> self.spec_constraints()[
                        (#[trigger] ids@[b]).0 as int
                    ].after@.contains((#[trigger] after_ids@[j3]).0),
                forall|b: int, j3: int|
                    0 <= b < k && 0 <= j3 < before_ids@.len() ==> self.spec_constraints()[
                        (#[trigger] ids@[b]).0 as int
                    ].before@.contains((#[trigger] before_ids@[j3]).0),
                forall|b: int, j3: int|
                    0 <= b < k && 0 <= j3 < after_ids@.len() ==> self.spec_constraints()[
                        (#[trigger] after_ids@[j3]).0 as int
                    ].before@.contains((#[trigger] ids@[b]).0),
                forall|b: int, j3: int|
                    0 <= b < k && 0 <= j3 < before_ids@.len() ==> self.spec_constraints()[
                        (#[trigger] before_ids@[j3]).0 as int
                    ].after@.contains((#[trigger] ids@[b]).0),
            decreases ids@.len() - k,
        {
            let id = ids[k];
            let ghost pre = *self;
            self.add_system_constraints(id, &after_ids, &before_ids);
            proof {
                assert forall|s2: int|
                    0 <= s2 < s_reg.spec_constraints().len() implies constraint_grows(
                    #[trigger] s_reg.spec_constraints()[s2],
                    self.spec_constraints()[s2],
                ) by {
                    lemma_grows_trans(
                        s_reg.spec_constraints()[s2],
                        pre.spec_constraints()[s2],
                        self.spec_constraints()[s2],
                    );
                }
                assert forall|b: int, j3: int|
                    0 <= b < k + 1 && 0 <= j3 < after_ids@.len() implies self.spec_constraints()[
                    (#[trigger] ids@[b]).0 as int
                ].after@.contains((#[trigger] after_ids@[j3]).0) by {
                    if b < k {
                        lemma_prefix_contains(
                            pre.spec_constraints()[ids@[b].0 as int].after@,
                            self.spec_constraints()[ids@[b].0 as int].after@,
                            after_ids@[j3].0,
                        );
                    }
                }
                assert forall|b: int, j3: int|
                    0 <= b < k + 1 && 0 <= j3 < before_ids@.len() implies self.spec_constraints()[
                    (#[trigger] ids@[b]).0 as int
                ].before@.contains((#[trigger] before_ids@[j3]).0) by {
                    if b < k {
                        lemma_prefix_contains(
                            pre.spec_constraints()[ids@[b].0 as int].before@,
                            self.spec_constraints()[ids@[b].0 as int].before@,
                            before_ids@[j3].0,
                        );
                    }
                }
                assert forall|b: int, j3: int|
                    0 <= b < k + 1 && 0 <= j3 < after_ids@.len() implies self.spec_constraints()[
                    (#[trigger] after_ids@[j3]).0 as int
                ].before@.contains((#[trigger] ids@[b]).0) by {
                    if b < k {
                        lemma_prefix_contains(
                            pre.spec_constraints()[after_ids@[j3].0 as int].before@,
                            self.spec_constraints()[after_ids@[j3].0 as int].before@,
                            ids@[b].0,
                        );
                    }
                }
                assert forall|b: int, j3: int|
                    0 <= b < k + 1 && 0 <= j3 < before_ids@.len() implies self.spec_constraints()[
                    (#[trigger] before_ids@[j3]).0 as int
                ].after@.contains((#[trigger] ids@[b]).0) by {
                    if b < k {
                        lemma_prefix_contains(
                            pre.spec_constraints()[before_ids@[j3].0 as int].after@,
                            self.spec_constraints()[before_ids@[j3].0 as int].after@,
                            ids@[b].0,
                        );
                    }
                }
            }
            k = k + 1;
        }
        let ghost s_con = *self;
        if chain {
            let mut k2: usize = 1;
            while k2 < ids.len()
                invariant
                    self.wf(),
                    ids@.len() == systems_g.len(),
                    k2 >= 1,
                    self.spec_systems() == s_con.spec_systems(),
                    self.spec_param_data() == s_con.spec_param_data(),
                    self.spec_accesses() == s_con.spec_accesses(),
                    self.spec_constraints().len() == s_con.spec_constraints().len(),
                    forall|s2: int|
                        0 <= s2 < s_con.spec_constraints().len() ==> constraint_grows(
                            #[trigger] s_con.spec_constraints()[s2],
                            self.spec_constraints()[s2],
                        ),
                    forall|b: int|
                        0 <= b < ids@.len() ==> (#[trigger] ids@[b]).0 < self.spec_systems().len(),
                    forall|i2: int|
                        1 <= i2 < k2 ==> self.spec_constraints()[
                            (#[trigger] ids@[i2]).0 as int
                        ].after@.contains(ids@[i2 - 1].0),
                    forall|i2: int|
                        1 <= i2 < k2 ==> self.spec_constraints()[
                            (#[trigger] ids@[i2 - 1]).0 as int
                        ].before@.contains(ids@[i2].0),
                decreases ids@.len() - k2,
            {
                let id = ids[k2];
                let mut prev: Vec<SystemId> = Vec::new();
                prev.push(ids[k2 - 1]);
                let none: Vec<SystemId> = Vec::new();
                let ghost pre = *self;
                self.add_system_constraints(id, &prev, &none);
                proof {
                    assert forall|s2: int|
                        0 <= s2 < s_con.spec_constraints().len() implies constraint_grows(
                        #[trigger] s_con.spec_constraints()[s2],
                        self.spec_constraints()[s2],
                    ) by {
                        lemma_grows_trans(
                            s_con.spec_constraints()[s2],
                            pre.spec_constraints()[s2],
                            self.spec_constraints()[s2],
                        );
                    }
                    assert(prev@[0] == ids@[k2 - 1]);
                    assert forall|i2: int|
                        1 <= i2 < k2 + 1 implies self.spec_constraints()[
                        (#[trigger] ids@[i2]).0 as int
                    ].after@.contains(ids@[i2 - 1].0) by {
                        if i2 < k2 {
                            lemma_prefix_contains(
                                pre.spec_constraints()[ids@[i2].0 as int].after@,
                                self.spec_constraints()[ids@[i2].0 as int].after@,
                                ids@[i2 - 1].0,
                            );
                        }
                    }
                    assert forall|i2: int|
                        1 <= i2 < k2 + 1 implies self.spec_constraints()[
                        (#[trigger] ids@[i2 - 1]).0 as int
                    ].before@.contains(ids@[i2].0) by {
                        if i2 < k2 {
                            lemma_prefix_contains(
                                pre.spec_constraints()[ids@[i2 - 1].0 as int].before@,
                                self.spec_constraints()[ids@[i2 - 1].0 as int].before@,
                                ids@[i2].0,
                            );
                        }
                    }
                }
                k2 = k2 + 1;
            }
        }
        proof {
            if fits {
                // translate the recorded ids into key lookups
                assert forall|j3: int|
                    0 <= j3 < after_g.len() implies self.has_system_key(
                    (#[trigger] after_g[j3]).key,
                ) by {
                    assert(self.spec_systems()[after_ids@[j3].0 as int].key == after_g[j3].key);
                }
                assert forall|j3: int|
                    0 <= j3 < before_g.len() implies self.has_system_key(
                    (#[trigger] before_g[j3]).key,
                ) by {
                    assert(self.spec_systems()[before_ids@[j3].0 as int].key == before_g[j3].key);
                }
                assert forall|b: int, j3: int|
                    0 <= b < ids@.len() && 0 <= j3 < after_g.len()
                    implies self.spec_constraints()[(#[trigger] ids@[b]).0 as int].after@.contains(
                    self.spec_system_id_of((#[trigger] after_g[j3]).key) as u32,
                ) by {
                    self.lemma_system_id_of_unique(after_ids@[j3].0);
                    lemma_prefix_contains(
                        s_con.spec_constraints()[ids@[b].0 as int].after@,
                        self.spec_constraints()[ids@[b].0 as int].after@,
                        after_ids@[j3].0,
                    );
                }
                assert forall|b: int, j3: int|
                    0 <= b < ids@.len() && 0 <= j3 < before_g.len()
                    implies self.spec_constraints()[(#[trigger] ids@[b]).0 as int].before@.contains(
                    self.spec_system_id_of((#[trigger] before_g[j3]).key) as u32,
                ) by {
                    self.lemma_system_id_of_unique(before_ids@[j3].0);
                    lemma_prefix_contains(
                        s_con.spec_constraints()[ids@[b].0 as int].before@,
                        self.spec_constraints()[ids@[b].0 as int].before@,
                        before_ids@[j3].0,
                    );
                }
                assert forall|b: int, j3: int|
                    0 <= b < ids@.len() && 0 <= j3 < after_g.len()
                    implies self.spec_constraints()[
                    self.spec_system_id_of((#[trigger] after_g[j3]).key) as int
                ].before@.contains((#[trigger] ids@[b]).0) by {
                    self.lemma_system_id_of_unique(after_ids@[j3].0);
                    lemma_prefix_contains(
                        s_con.spec_constraints()[after_ids@[j3].0 as int].before@,
                        self.spec_constraints()[after_ids@[j3].0 as int].before@,
                        ids@[b].0,
                    );
                }
                assert forall|b: int, j3: int|
                    0 <= b < ids@.len() && 0 <= j3 < before_g.len()
                    implies self.spec_constraints()[
                    self.spec_system_id_of((#[trigger] before_g[j3]).key) as int
                ].after@.contains((#[trigger] ids@[b]).0) by {
                    self.lemma_system_id_of_unique(before_ids@[j3].0);
                    lemma_prefix_contains(
                        s_con.spec_constraints()[before_ids@[j3].0 as int].after@,
                        self.spec_constraints()[before_ids@[j3].0 as int].after@,
                        ids@[b].0,
                    );
                }
            }
        }
        ids
    }

    /// The registry maps each registered system's key back to its id.
    pub proof fn lemma_system_id_of_unique(self, s: u32)
        requires
            self.wf(),
            s < self.spec_systems().len(),
        ensures
            self.has_system_key(self.spec_systems()[s as int].key),
            self.spec_system_id_of(self.spec_systems()[s as int].key) == s,
    {
        let key = self.spec_systems()[s as int].key;
        assert(self.has_system_key(key)) by {
            assert(0 <= s < self.spec_systems().len() && self.spec_systems()[s as int].key == key);
        }
        let s2 = self.spec_system_id_of(key);
        assert(0 <= s2 < self.spec_systems().len() && self.spec_systems()[s2].key == key);
        if s2 != s {
            if s2 < s {
                assert(self.spec_systems()[s2].key != self.spec_systems()[s as int].key);
            } else {
                assert(self.spec_systems()[s as int].key != self.spec_systems()[s2].key);
            }
        }
    }
}

} // verus!
