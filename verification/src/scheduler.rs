//! The scheduler: turns the systems' `after` constraints into an execution
//! order (failing loudly on a constraint cycle instead of spinning), layers
//! systems into constraint batches, and splits each batch into sub-batches
//! whose members provably do not conflict on any declared data access.

use vstd::prelude::*;
use crate::error::EcsError;
use crate::system::{accesses_conflict, check_conflict, Access, Constraint, SystemId};

verus! {

/// Does the order respect every `after` constraint: whenever system
/// `order[i]` declares it runs after `d`, and `d` is scheduled at all, `d`
/// stands somewhere before position `i`.
pub open spec fn order_respects(order: Seq<SystemId>, constraints: Seq<Constraint>, pool: Seq<SystemId>) -> bool {
    forall|i: int, d: int|
        0 <= i < order.len() && order[i].0 < constraints.len() && 0 <= d < constraints[
            order[i].0 as int
        ].after@.len() && pool.contains(
            SystemId(#[trigger] constraints[order[i].0 as int].after@[d]),
        ) ==> exists|j: int|
            0 <= j < i && (#[trigger] order[j]).0 == constraints[order[i].0 as int].after@[d]
}

/// The single-threaded scheduler: the list of systems to run each tick.
pub struct SingleThreadScheduler {
    pub schedule: Vec<SystemId>,
}

impl SingleThreadScheduler {
    pub fn new() -> (r: Self)
        ensures
            r.schedule@.len() == 0,
    {
        Self { schedule: Vec::new() }
    }

    /// Decide the order one tick runs the scheduled systems in: repeatedly
    /// run the first waiting system whose `after` set is satisfied.  A pass
    /// that makes no progress means the user declared a constraint cycle —
    /// a configuration error reported as such, never retried forever.
    #[verifier::loop_isolation(false)]
    pub fn execute(&self, constraints: &Vec<Constraint>) -> (r: Result<Vec<SystemId>, EcsError>)
        ensures
            match r {
                Ok(order) => {
                    &&& order@.to_multiset() == self.schedule@.to_multiset()
                    &&& order_respects(order@, constraints@, self.schedule@)
                },
                Err(e) => e matches EcsError::SchedulingLoop(rem) && stuck_set(
                    rem@,
                    constraints@,
                    self.schedule@,
                ),
            },
    {
        broadcast use vstd::seq_lib::group_to_multiset_ensures;

        let mut to_run: Vec<SystemId> = clone_system_ids(&self.schedule);
        let mut order: Vec<SystemId> = Vec::new();
        let mut finished: Vec<u32> = Vec::new();
        while to_run.len() > 0
            invariant
                order@.to_multiset().add(to_run@.to_multiset()) == self.schedule@.to_multiset(),
                finished@.len() == order@.len(),
                forall|j: int| 0 <= j < order@.len() ==> #[trigger] finished@[j] == order@[j].0,
                order_respects(order@, constraints@, self.schedule@),
            decreases to_run@.len(),
        {
            let mut picked: Option<usize> = None;
            let mut i: usize = 0;
            while i < to_run.len()
                invariant
                    i <= to_run@.len(),
                    match picked {
                        Some(p) => p < to_run@.len() && runnable_spec(
                            to_run@[p as int],
                            constraints@,
                            self.schedule@,
                            finished@,
                        ),
                        None => forall|i2: int|
                            0 <= i2 < i ==> !runnable_spec(
                                #[trigger] to_run@[i2],
                                constraints@,
                                self.schedule@,
                                finished@,
                            ),
                    },
                decreases to_run@.len() - i,
            {
                if picked.is_none() && self.runnable(to_run[i], constraints, &finished) {
                    picked = Some(i);
                }
                i = i + 1;
            }
            match picked {
                Some(p) => {
                    let ghost rem_pre = to_run@;
                    let sys = to_run.remove(p);
                    proof {
                        assert(rem_pre.remove(p as int).to_multiset() =~= rem_pre.to_multiset().remove(sys));
                        assert(rem_pre.contains(sys)) by {
                            assert(rem_pre[p as int] == sys);
                        }
                        assert(rem_pre.to_multiset().count(sys) > 0);
                    }
                    let ghost order_pre = order@;
                    let ghost finished_pre = finished@;
                    order.push(sys);
                    finished.push(sys.0);
                    proof {
                        assert(order@.to_multiset() =~= order_pre.to_multiset().insert(sys));
                        assert(order@.to_multiset().add(to_run@.to_multiset())
                            =~= order_pre.to_multiset().add(rem_pre.to_multiset()));
                        assert forall|i2: int, d: int|
                            0 <= i2 < order@.len() && order@[i2].0 < constraints@.len() && 0 <= d
                                < constraints@[order@[i2].0 as int].after@.len()
                                && self.schedule@.contains(
                                SystemId(#[trigger] constraints@[order@[i2].0 as int].after@[d]),
                            ) implies exists|j: int|
                            0 <= j < i2 && (#[trigger] order@[j]).0 == constraints@[
                                order@[i2].0 as int
                            ].after@[d] by {
                            if i2 < order_pre.len() {
                                assert(order_pre[i2] == order@[i2]);
                                assert(exists|j: int|
                                    0 <= j < i2 && (#[trigger] order_pre[j]).0 == constraints@[
                                        order_pre[i2].0 as int
                                    ].after@[d]);
                                let j = choose|j: int|
                                    0 <= j < i2 && (#[trigger] order_pre[j]).0 == constraints@[
                                        order_pre[i2].0 as int
                                    ].after@[d];
                                assert(order@[j].0 == constraints@[order@[i2].0 as int].after@[d]);
                            } else {
                                let dep = constraints@[sys.0 as int].after@[d];
                                assert(runnable_spec(
                                    sys,
                                    constraints@,
                                    self.schedule@,
                                    finished_pre,
                                ));
                                assert(finished_pre.contains(dep) || !self.schedule@.contains(
                                    SystemId(dep),
                                ));
                                let j = choose|j: int|
                                    0 <= j < finished_pre.len() && finished_pre[j] == dep;
                                assert(finished@[j] == dep);
                                assert(order@[j].0 == dep);
                            }
                        }
                    }
                },
                None => {
                    proof {
                        assert forall|i2: int|
                            0 <= i2 < to_run@.len() implies (#[trigger] to_run@[i2]).0
                            < constraints@.len() && exists|d: int|
                            0 <= d < constraints@[to_run@[i2].0 as int].after@.len()
                                && self.schedule@.contains(
                                SystemId(
                                    #[trigger] constraints@[to_run@[i2].0 as int].after@[d],
                                ),
                            ) && to_run@.contains(
                                SystemId(constraints@[to_run@[i2].0 as int].after@[d]),
                            ) by {
                            assert(!runnable_spec(
                                to_run@[i2],
                                constraints@,
                                self.schedule@,
                                finished@,
                            ));
                            let d = choose|d: int|
                                0 <= d < constraints@[to_run@[i2].0 as int].after@.len() && !(
                                finished@.contains(
                                    #[trigger] constraints@[to_run@[i2].0 as int].after@[d],
                                ) || !self.schedule@.contains(
                                    SystemId(constraints@[to_run@[i2].0 as int].after@[d]),
                                ));
                            let dep = constraints@[to_run@[i2].0 as int].after@[d];
                            // a scheduled, unfinished dependency is still waiting here
                            assert(self.schedule@.to_multiset().count(SystemId(dep)) > 0);
                            assert(order@.to_multiset().count(SystemId(dep)) == 0) by {
                                if order@.contains(SystemId(dep)) {
                                    let w = choose|w: int|
                                        0 <= w < order@.len() && order@[w] == SystemId(dep);
                                    assert(finished@[w] == dep);
                                    assert(finished@.contains(dep));
                                }
                            }
                            assert(to_run@.to_multiset().count(SystemId(dep)) > 0);
                            assert(to_run@.contains(SystemId(dep)));
                        }
                        assert(stuck_set(to_run@, constraints@, self.schedule@));
                    }
                    return Err(EcsError::SchedulingLoop(to_run));
                },
            }
        }
        proof {
            assert(to_run@.to_multiset().len() == 0);
            assert(order@.to_multiset().add(to_run@.to_multiset()) =~= order@.to_multiset());
        }
        Ok(order)
    }

    /// Are all of a system's `after` constraints met: each one finished
    /// already, or not scheduled at all this tick.
    fn runnable(&self, sys: SystemId, constraints: &Vec<Constraint>, finished: &Vec<u32>) -> (r:
        bool)
        ensures
            r == runnable_spec(sys, constraints@, self.schedule@, finished@),
    {
        deps_met(sys, constraints, &self.schedule, finished)
    }
}

/// Are all of a system's `after` constraints met against `finished`, given
/// which systems are scheduled at all?
pub fn deps_met(sys: SystemId, constraints: &Vec<Constraint>, pool: &Vec<SystemId>, finished: &Vec<
    u32,
>) -> (r: bool)
    ensures
        r == runnable_spec(sys, constraints@, pool@, finished@),
{
    if (sys.0 as usize) >= constraints.len() {
        return true;
    }
    let c = &constraints[sys.0 as usize];
    let mut d: usize = 0;
    while d < c.after.len()
        invariant
            c == &constraints[sys.0 as int],
            sys.0 < constraints@.len(),
            d <= c.after@.len(),
            forall|d2: int|
                0 <= d2 < d ==> finished@.contains(#[trigger] c.after@[d2]) || !pool@.contains(
                    SystemId(c.after@[d2]),
                ),
        decreases c.after@.len() - d,
    {
        let dep = c.after[d];
        if !contains_u32(finished, dep) && contains_sys(pool, dep) {
            proof {
                assert(!(finished@.contains(c.after@[d as int]) || !pool@.contains(
                    SystemId(c.after@[d as int]),
                )));
            }
            return false;
        }
        d = d + 1;
    }
    true
}

/// A genuinely stuck set: it is non-empty and every member waits on an
/// `after` dependency that is scheduled, yet sits in the set itself — the
/// witness of a constraint cycle.
pub open spec fn stuck_set(rem: Seq<SystemId>, constraints: Seq<Constraint>, pool: Seq<SystemId>) -> bool {
    &&& rem.len() > 0
    &&& forall|i: int|
        0 <= i < rem.len() ==> (#[trigger] rem[i]).0 < constraints.len() && exists|d: int|
            0 <= d < constraints[rem[i].0 as int].after@.len() && pool.contains(
                SystemId(#[trigger] constraints[rem[i].0 as int].after@[d]),
            ) && rem.contains(SystemId(constraints[rem[i].0 as int].after@[d]))
}

/// All `after` constraints of `sys` are met with respect to what is
/// finished.
pub open spec fn runnable_spec(sys: SystemId, constraints: Seq<Constraint>, pool: Seq<SystemId>, finished: Seq<u32>) -> bool {
    sys.0 < constraints.len() ==> forall|d: int|
        0 <= d < constraints[sys.0 as int].after@.len() ==> finished.contains(
            #[trigger] constraints[sys.0 as int].after@[d],
        ) || !pool.contains(SystemId(constraints[sys.0 as int].after@[d]))
}

fn contains_u32(v: &Vec<u32>, x: u32) -> (r: bool)
    ensures
        r == v@.contains(x),
{
    let mut i: usize = 0;
    while i < v.len()
        invariant
            i <= v@.len(),
            forall|k: int| 0 <= k < i ==> v@[k] != x,
        decreases v@.len() - i,
    {
        if v[i] == x {
            proof {
                assert(v@[i as int] == x);
            }
            return true;
        }
        i = i + 1;
    }
    false
}

fn contains_sys(v: &Vec<SystemId>, x: u32) -> (r: bool)
    ensures
        r == v@.contains(SystemId(x)),
{
    let mut i: usize = 0;
    while i < v.len()
        invariant
            i <= v@.len(),
            forall|k: int| 0 <= k < i ==> v@[k] != SystemId(x),
        decreases v@.len() - i,
    {
        if v[i].0 == x {
            proof {
                assert(v@[i as int] == SystemId(x));
            }
            return true;
        }
        i = i + 1;
    }
    false
}

fn clone_system_ids(v: &Vec<SystemId>) -> (r: Vec<SystemId>)
    ensures
        r@ == v@,
{
    let mut out: Vec<SystemId> = Vec::new();
    let mut i: usize = 0;
    while i < v.len()
        invariant
            i <= v@.len(),
            out@ == v@.subrange(0, i as int),
        decreases v@.len() - i,
    {
        out.push(v[i]);
        proof {
            assert(out@ =~= v@.subrange(0, (i + 1) as int));
        }
        i = i + 1;
    }
    proof {
        assert(v@.subrange(0, v@.len() as int) =~= v@);
    }
    out
}

/// Split one batch of systems into parallel sub-batches: greedily grow each
/// group with systems that conflict with none of its members, so that no
/// two systems placed in the same sub-batch have a data conflict.
#[verifier::loop_isolation(false)]
pub fn conflict_free_batches(batch: &Vec<SystemId>, accesses: &Vec<Vec<Access>>) -> (r: Vec<
    Vec<SystemId>,
>)
    ensures
        // conflict-batch safety: members of one sub-batch never conflict
        forall|g: int, i1: int, i2: int|
            0 <= g < r@.len() && 0 <= i1 < i2 < r@[g]@.len() && (#[trigger] r@[g]@[i1]).0
                < accesses@.len() && (#[trigger] r@[g]@[i2]).0 < accesses@.len()
                ==> !accesses_conflict(
                accesses@[r@[g]@[i1].0 as int]@,
                accesses@[r@[g]@[i2].0 as int]@,
            ),
        // every system of the batch is placed exactly once
        flatten_multiset(r@) == batch@.to_multiset(),
{
    broadcast use vstd::seq_lib::group_to_multiset_ensures;

    let mut remaining: Vec<SystemId> = clone_system_ids(batch);
    let mut out: Vec<Vec<SystemId>> = Vec::new();
    while remaining.len() > 0
        invariant
            flatten_multiset(out@).add(remaining@.to_multiset()) == batch@.to_multiset(),
            forall|g: int, i1: int, i2: int|
                0 <= g < out@.len() && 0 <= i1 < i2 < out@[g]@.len() && (#[trigger] out@[g]@[
                    i1
                ]).0 < accesses@.len() && (#[trigger] out@[g]@[i2]).0 < accesses@.len()
                    ==> !accesses_conflict(
                    accesses@[out@[g]@[i1].0 as int]@,
                    accesses@[out@[g]@[i2].0 as int]@,
                ),
        decreases remaining@.len(),
    {
        let mut group: Vec<SystemId> = Vec::new();
        let ghost rem_pre = remaining@;
        let first = remaining.remove(0);
        group.push(first);
        proof {
            assert(rem_pre.remove(0).to_multiset() =~= rem_pre.to_multiset().remove(first));
            assert(rem_pre.contains(first)) by {
                assert(rem_pre[0] == first);
            }
            assert(rem_pre.to_multiset().count(first) > 0);
            assert(group@.to_multiset() =~= Seq::<SystemId>::empty().to_multiset().insert(first));
            assert(group@.to_multiset().add(remaining@.to_multiset()) =~= rem_pre.to_multiset());
        }
        let mut i: usize = 0;
        while i < remaining.len()
            invariant
                group@.len() >= 1,
                i <= remaining@.len(),
                group@.to_multiset().add(remaining@.to_multiset()).add(flatten_multiset(out@))
                    == batch@.to_multiset(),
                remaining@.len() + group@.len() == rem_pre.len(),
                forall|i1: int, i2: int|
                    0 <= i1 < i2 < group@.len() && (#[trigger] group@[i1]).0 < accesses@.len() && (
                    #[trigger] group@[i2]).0 < accesses@.len() ==> !accesses_conflict(
                        accesses@[group@[i1].0 as int]@,
                        accesses@[group@[i2].0 as int]@,
                    ),
                forall|g: int, i1: int, i2: int|
                    0 <= g < out@.len() && 0 <= i1 < i2 < out@[g]@.len() && (#[trigger] out@[g]@[
                        i1
                    ]).0 < accesses@.len() && (#[trigger] out@[g]@[i2]).0 < accesses@.len()
                        ==> !accesses_conflict(
                        accesses@[out@[g]@[i1].0 as int]@,
                        accesses@[out@[g]@[i2].0 as int]@,
                    ),
            decreases remaining@.len() - i,
        {
            let cand = remaining[i];
            let joins = if (cand.0 as usize) < accesses.len() {
                !self_conflicts_any(&group, cand, accesses)
            } else {
                true
            };
            if joins {
                let ghost group_pre = group@;
                let ghost rem_pre2 = remaining@;
                let taken = remaining.remove(i);
                group.push(taken);
                proof {
                    assert(rem_pre2.remove(i as int).to_multiset() =~= rem_pre2.to_multiset().remove(taken));
                    assert(rem_pre2.contains(taken)) by {
                        assert(rem_pre2[i as int] == taken);
                    }
                    assert(rem_pre2.to_multiset().count(taken) > 0);
                    assert(group@.to_multiset() =~= group_pre.to_multiset().insert(taken));
                    assert(group@.to_multiset().add(remaining@.to_multiset()) =~= group_pre.to_multiset().add(rem_pre2.to_multiset()));
                    assert forall|i1: int, i2: int|
                        0 <= i1 < i2 < group@.len() && (#[trigger] group@[i1]).0 < accesses@.len()
                            && (#[trigger] group@[i2]).0 < accesses@.len()
                            implies !accesses_conflict(
                        accesses@[group@[i1].0 as int]@,
                        accesses@[group@[i2].0 as int]@,
                    ) by {
                        if i2 == group@.len() - 1 {
                            assert(group@[i1] == group_pre[i1]);
                        }
                    }
                }
            } else {
                i = i + 1;
            }
        }
        let ghost out_pre = out@;
        out.push(group);
        proof {
            lemma_flatten_multiset_push(out_pre, out@.last());
            assert forall|g: int, i1: int, i2: int|
                0 <= g < out@.len() && 0 <= i1 < i2 < out@[g]@.len() && (#[trigger] out@[g]@[
                    i1
                ]).0 < accesses@.len() && (#[trigger] out@[g]@[i2]).0 < accesses@.len()
                implies !accesses_conflict(
                accesses@[out@[g]@[i1].0 as int]@,
                accesses@[out@[g]@[i2].0 as int]@,
            ) by {
                if g < out_pre.len() {
                    assert(out@[g] == out_pre[g]);
                }
            }
        }
    }
    proof {
        assert(flatten_multiset(out@).add(remaining@.to_multiset()) =~= flatten_multiset(out@));
    }
    out
}

/// Does a candidate conflict with any current member of the group?
fn self_conflicts_any(group: &Vec<SystemId>, cand: SystemId, accesses: &Vec<Vec<Access>>) -> (r:
    bool)
    requires
        cand.0 < accesses@.len(),
    ensures
        !r ==> forall|k: int|
            0 <= k < group@.len() && (#[trigger] group@[k]).0 < accesses@.len()
                ==> !accesses_conflict(accesses@[group@[k].0 as int]@, accesses@[cand.0 as int]@)
                && !accesses_conflict(accesses@[cand.0 as int]@, accesses@[group@[k].0 as int]@),
{
    let mut k: usize = 0;
    while k < group.len()
        invariant
            cand.0 < accesses@.len(),
            k <= group@.len(),
            forall|k2: int|
                0 <= k2 < k && (#[trigger] group@[k2]).0 < accesses@.len() ==> !accesses_conflict(
                    accesses@[group@[k2].0 as int]@,
                    accesses@[cand.0 as int]@,
                ) && !accesses_conflict(
                    accesses@[cand.0 as int]@,
                    accesses@[group@[k2].0 as int]@,
                ),
        decreases group@.len() - k,
    {
        let m = group[k];
        if (m.0 as usize) < accesses.len() {
            if check_conflict(&accesses[m.0 as usize], &accesses[cand.0 as usize]) {
                return true;
            }
            if check_conflict(&accesses[cand.0 as usize], &accesses[m.0 as usize]) {
                return true;
            }
        }
        k = k + 1;
    }
    false
}

/// The multiset of all systems placed across all sub-batches.
pub open spec fn flatten_multiset(batches: Seq<Vec<SystemId>>) -> vstd::multiset::Multiset<
    SystemId,
>
    decreases batches.len(),
{
    if batches.len() == 0 {
        vstd::multiset::Multiset::empty()
    } else {
        flatten_multiset(batches.drop_last()).add(batches.last()@.to_multiset())
    }
}

proof fn lemma_flatten_multiset_push(batches: Seq<Vec<SystemId>>, b: Vec<SystemId>)
    ensures
        flatten_multiset(batches.push(b)) == flatten_multiset(batches).add(b@.to_multiset()),
{
    assert(batches.push(b).drop_last() =~= batches);
}

/// Every `after` dependency of a batched system that is scheduled at all
/// stands in a strictly earlier batch.
pub open spec fn batches_ordered(batches: Seq<Vec<SystemId>>, constraints: Seq<Constraint>, pool: Seq<SystemId>) -> bool {
    forall|b: int, i: int, d: int|
        0 <= b < batches.len() && 0 <= i < batches[b]@.len() && batches[b]@[i].0
            < constraints.len() && 0 <= d < constraints[batches[b]@[i].0 as int].after@.len()
            && pool.contains(
            SystemId(#[trigger] constraints[batches[b]@[i].0 as int].after@[d]),
        ) ==> exists|b2: int, i2: int|
            0 <= b2 < b && 0 <= i2 < batches[b2]@.len() && (#[trigger] batches[b2]@[i2]).0
                == constraints[batches[b]@[i].0 as int].after@[d]
}

proof fn lemma_flatten_contains(batches: Seq<Vec<SystemId>>, x: SystemId)
    requires
        flatten_multiset(batches).count(x) > 0,
    ensures
        exists|b: int, i: int|
            0 <= b < batches.len() && 0 <= i < batches[b]@.len() && (#[trigger] batches[b]@[i])
                == x,
    decreases batches.len(),
{
    broadcast use vstd::seq_lib::group_to_multiset_ensures;
    broadcast use vstd::multiset::group_multiset_axioms;

    if batches.len() > 0 {
        if batches.last()@.to_multiset().count(x) > 0 {
            assert(batches.last()@.contains(x));
            let i = choose|i: int| 0 <= i < batches.last()@.len() && batches.last()@[i] == x;
            assert(batches[batches.len() - 1]@[i] == x);
        } else {
            lemma_flatten_contains(batches.drop_last(), x);
            let (b, i) = choose|b: int, i: int|
                0 <= b < batches.drop_last().len() && 0 <= i < batches.drop_last()[b]@.len() && (
                #[trigger] batches.drop_last()[b]@[i]) == x;
            assert(batches[b]@[i] == x);
        }
    }
}

proof fn lemma_flatten_member(batches: Seq<Vec<SystemId>>, b: int, i: int)
    requires
        0 <= b < batches.len(),
        0 <= i < batches[b]@.len(),
    ensures
        flatten_multiset(batches).count(batches[b]@[i]) > 0,
    decreases batches.len(),
{
    broadcast use vstd::seq_lib::group_to_multiset_ensures;
    broadcast use vstd::multiset::group_multiset_axioms;

    if b == batches.len() - 1 {
        assert(batches.last()@.contains(batches[b]@[i])) by {
            assert(batches.last()@[i] == batches[b]@[i]);
        }
        assert(batches.last()@.to_multiset().count(batches[b]@[i]) > 0);
    } else {
        lemma_flatten_member(batches.drop_last(), b, i);
        assert(batches.drop_last()[b]@[i] == batches[b]@[i]);
    }
}

/// Layer the scheduled systems into constraint batches: each batch holds
/// the systems whose `after` sets are satisfied by the earlier batches.
/// Every scheduled system is placed exactly once; a pass that places
/// nothing is a constraint cycle, reported with the systems left over.
#[verifier::loop_isolation(false)]
pub fn build_constraint_batches(schedule: &Vec<SystemId>, constraints: &Vec<Constraint>) -> (r:
    Result<Vec<Vec<SystemId>>, EcsError>)
    ensures
        match r {
            Ok(batches) => {
                &&& flatten_multiset(batches@) == schedule@.to_multiset()
                &&& forall|b: int| 0 <= b < batches@.len() ==> (#[trigger] batches@[b])@.len() > 0
                &&& batches_ordered(batches@, constraints@, schedule@)
            },
            Err(e) => e matches EcsError::SchedulingLoop(rem) && stuck_set(
                rem@,
                constraints@,
                schedule@,
            ),
        },
{
    broadcast use vstd::seq_lib::group_to_multiset_ensures;
    broadcast use vstd::multiset::group_multiset_axioms;

    let mut remaining: Vec<SystemId> = clone_system_ids(schedule);
    let mut done: Vec<u32> = Vec::new();
    let mut batches: Vec<Vec<SystemId>> = Vec::new();
    while remaining.len() > 0
        invariant
            flatten_multiset(batches@).add(remaining@.to_multiset()) == schedule@.to_multiset(),
            forall|b: int| 0 <= b < batches@.len() ==> (#[trigger] batches@[b])@.len() > 0,
            forall|d: u32|
                done@.contains(d) <==> flatten_multiset(batches@).count(SystemId(d)) > 0,
            batches_ordered(batches@, constraints@, schedule@),
        decreases remaining@.len(),
    {
        let mut layer: Vec<SystemId> = Vec::new();
        let mut still: Vec<SystemId> = Vec::new();
        let ghost rem_pre = remaining@;
        while remaining.len() > 0
            invariant
                layer@.to_multiset().add(still@.to_multiset()).add(remaining@.to_multiset())
                    == rem_pre.to_multiset(),
                layer@.len() + still@.len() + remaining@.len() == rem_pre.len(),
                forall|i: int|
                    0 <= i < layer@.len() ==> runnable_spec(
                        #[trigger] layer@[i],
                        constraints@,
                        schedule@,
                        done@,
                    ),
                forall|i: int|
                    0 <= i < still@.len() ==> !runnable_spec(
                        #[trigger] still@[i],
                        constraints@,
                        schedule@,
                        done@,
                    ),
            decreases remaining@.len(),
        {
            let ghost rem_b4 = remaining@;
            let x = match remaining.pop() {
                Some(x) => x,
                None => {
                    proof {
                        assert(false);
                    }
                    SystemId(0)
                },
            };
            let ghost lay_pre = layer@;
            let ghost still_pre = still@;
            if deps_met(x, constraints, schedule, &done) {
                layer.push(x);
            } else {
                still.push(x);
            }
            proof {
                assert(rem_b4.drop_last() =~= rem_b4.remove(rem_b4.len() - 1));
                assert(remaining@.to_multiset() =~= rem_b4.to_multiset().remove(x));
                assert(rem_b4.to_multiset().count(x) > 0) by {
                    assert(rem_b4.contains(x)) by {
                        assert(rem_b4[rem_b4.len() - 1] == x);
                    }
                }
                assert(layer@.to_multiset().add(still@.to_multiset()) =~= lay_pre.to_multiset().add(still_pre.to_multiset()).insert(x));
                assert(layer@.to_multiset().add(still@.to_multiset()).add(remaining@.to_multiset())
                    =~= rem_pre.to_multiset());
            }
        }
        if layer.len() == 0 {
            proof {
                // everything left is waiting on something that is itself
                // left: the pass placed nothing, so the whole set is stuck
                assert(still@.to_multiset() =~= rem_pre.to_multiset());
                assert forall|i: int|
                    0 <= i < still@.len() implies (#[trigger] still@[i]).0 < constraints@.len()
                    && exists|d: int|
                    0 <= d < constraints@[still@[i].0 as int].after@.len() && schedule@.contains(
                        SystemId(#[trigger] constraints@[still@[i].0 as int].after@[d]),
                    ) && still@.contains(
                        SystemId(constraints@[still@[i].0 as int].after@[d]),
                    ) by {
                    assert(!runnable_spec(still@[i], constraints@, schedule@, done@));
                    let d = choose|d: int|
                        0 <= d < constraints@[still@[i].0 as int].after@.len() && !(done@.contains(
                            #[trigger] constraints@[still@[i].0 as int].after@[d],
                        ) || !schedule@.contains(
                            SystemId(constraints@[still@[i].0 as int].after@[d]),
                        ));
                    let dep = constraints@[still@[i].0 as int].after@[d];
                    assert(flatten_multiset(batches@).count(SystemId(dep)) == 0);
                    assert(schedule@.to_multiset().count(SystemId(dep)) > 0);
                    assert(still@.to_multiset().count(SystemId(dep)) > 0);
                    assert(still@.contains(SystemId(dep)));
                }
                assert(stuck_set(still@, constraints@, schedule@));
            }
            return Err(EcsError::SchedulingLoop(still));
        }
        let ghost done_pre = done@;
        let mut k: usize = 0;
        while k < layer.len()
            invariant
                k <= layer@.len(),
                done@.len() == done_pre.len() + k,
                forall|w: int| 0 <= w < done_pre.len() ==> done@[w] == done_pre[w],
                forall|w: int|
                    0 <= w < k ==> done@[done_pre.len() + w] == (#[trigger] layer@[w]).0,
            decreases layer@.len() - k,
        {
            done.push(layer[k].0);
            k = k + 1;
        }
        let ghost batches_pre = batches@;
        let ghost layer_g = layer@;
        batches.push(layer);
        remaining = still;
        proof {
            lemma_flatten_multiset_push(batches_pre, batches@.last());
            assert(flatten_multiset(batches@).add(remaining@.to_multiset())
                =~= flatten_multiset(batches_pre).add(rem_pre.to_multiset()));
            let bi = batches@.len() - 1;
            // the done set now names exactly the batched systems
            assert forall|d: u32|
                done@.contains(d) <==> flatten_multiset(batches@).count(SystemId(d)) > 0 by {
                if done@.contains(d) {
                    let w = choose|w: int| 0 <= w < done@.len() && done@[w] == d;
                    if w < done_pre.len() {
                        assert(done_pre[w] == d);
                        assert(done_pre.contains(d));
                        assert(flatten_multiset(batches_pre).count(SystemId(d)) > 0);
                        lemma_flatten_contains(batches_pre, SystemId(d));
                        let (b2, i2) = choose|b2: int, i2: int|
                            0 <= b2 < batches_pre.len() && 0 <= i2 < batches_pre[b2]@.len() && (
                            #[trigger] batches_pre[b2]@[i2]) == SystemId(d);
                        lemma_flatten_member(batches@, b2, i2);
                    } else {
                        assert(layer_g[w - done_pre.len()].0 == d);
                        assert(batches@[bi]@[w - done_pre.len()] == SystemId(d));
                        lemma_flatten_member(batches@, bi, w - done_pre.len());
                    }
                }
                if flatten_multiset(batches@).count(SystemId(d)) > 0 {
                    lemma_flatten_contains(batches@, SystemId(d));
                    let (b2, i2) = choose|b2: int, i2: int|
                        0 <= b2 < batches@.len() && 0 <= i2 < batches@[b2]@.len() && (
                        #[trigger] batches@[b2]@[i2]) == SystemId(d);
                    if b2 < bi {
                        assert(batches_pre[b2]@[i2] == SystemId(d));
                        lemma_flatten_member(batches_pre, b2, i2);
                        assert(done_pre.contains(d));
                        let w = choose|w: int| 0 <= w < done_pre.len() && done_pre[w] == d;
                        assert(done@[w] == d);
                    } else {
                        assert(layer_g[i2].0 == d);
                        assert(done@[done_pre.len() + i2] == d);
                    }
                }
            }
            // the new batch's dependencies all sit in earlier batches
            assert forall|b: int, i: int, d: int|
                0 <= b < batches@.len() && 0 <= i < batches@[b]@.len() && batches@[b]@[i].0
                    < constraints@.len() && 0 <= d < constraints@[
                batches@[b]@[i].0 as int
            ].after@.len() && schedule@.contains(
                SystemId(#[trigger] constraints@[batches@[b]@[i].0 as int].after@[d]),
            ) implies exists|b2: int, i2: int|
                0 <= b2 < b && 0 <= i2 < batches@[b2]@.len() && (#[trigger] batches@[b2]@[i2]).0
                    == constraints@[batches@[b]@[i].0 as int].after@[d] by {
                let dep = constraints@[batches@[b]@[i].0 as int].after@[d];
                if b < bi {
                    assert(batches_pre[b]@[i] == batches@[b]@[i]);
                    assert(exists|b2: int, i2: int|
                        0 <= b2 < b && 0 <= i2 < batches_pre[b2]@.len() && (
                        #[trigger] batches_pre[b2]@[i2]).0 == dep);
                    let (b2, i2) = choose|b2: int, i2: int|
                        0 <= b2 < b && 0 <= i2 < batches_pre[b2]@.len() && (
                        #[trigger] batches_pre[b2]@[i2]).0 == dep;
                    assert(batches@[b2]@[i2].0 == dep);
                } else {
                    assert(runnable_spec(layer_g[i], constraints@, schedule@, done_pre));
                    assert(done_pre.contains(dep));
                    assert(flatten_multiset(batches_pre).count(SystemId(dep)) > 0);
                    lemma_flatten_contains(batches_pre, SystemId(dep));
                    let (b2, i2) = choose|b2: int, i2: int|
                        0 <= b2 < batches_pre.len() && 0 <= i2 < batches_pre[b2]@.len() && (
                        #[trigger] batches_pre[b2]@[i2]) == SystemId(dep);
                    assert(batches@[b2]@[i2].0 == dep);
                }
            }
        }
    }
    proof {
        assert(flatten_multiset(batches@).add(remaining@.to_multiset()) =~= flatten_multiset(
            batches@,
        ));
    }
    Ok(batches)
}

/// Every `after` dependency of a planned system that is scheduled at all
/// stands in a strictly earlier constraint batch of the plan.
pub open spec fn plan_ordered(plan: Seq<Vec<Vec<SystemId>>>, constraints: Seq<Constraint>, pool: Seq<SystemId>) -> bool {
    forall|b: int, g: int, i: int, d: int|
        0 <= b < plan.len() && 0 <= g < plan[b]@.len() && 0 <= i < plan[b]@[g]@.len() && plan[b]@[
            g
        ]@[i].0 < constraints.len() && 0 <= d < constraints[plan[b]@[g]@[i].0 as int].after@.len()
            && pool.contains(
            SystemId(#[trigger] constraints[plan[b]@[g]@[i].0 as int].after@[d]),
        ) ==> exists|b2: int, g2: int, i2: int|
            0 <= b2 < b && 0 <= g2 < plan[b2]@.len() && 0 <= i2 < plan[b2]@[g2]@.len() && (
            #[trigger] plan[b2]@[g2]@[i2]).0 == constraints[plan[b]@[g]@[i].0 as int].after@[d]
}

/// The parallel schedule: constraint batches first, each then split into
/// conflict-free sub-batches.  No two systems sharing a sub-batch conflict
/// on any declared access, and every scheduled system appears exactly once.
#[verifier::loop_isolation(false)]
pub fn parallel_schedule(
    schedule: &Vec<SystemId>,
    constraints: &Vec<Constraint>,
    accesses: &Vec<Vec<Access>>,
) -> (r: Result<Vec<Vec<Vec<SystemId>>>, EcsError>)
    ensures
        match r {
            Ok(plan) => {
                &&& forall|b: int, g: int, i1: int, i2: int|
                    0 <= b < plan@.len() && 0 <= g < (#[trigger] plan@[b])@.len() && 0 <= i1 < i2
                        < plan@[b]@[g]@.len() && (#[trigger] plan@[b]@[g]@[i1]).0 < accesses@.len()
                        && (#[trigger] plan@[b]@[g]@[i2]).0 < accesses@.len()
                        ==> !accesses_conflict(
                        accesses@[plan@[b]@[g]@[i1].0 as int]@,
                        accesses@[plan@[b]@[g]@[i2].0 as int]@,
                    )
                &&& flatten_plan_multiset(plan@) == schedule@.to_multiset()
                &&& plan_ordered(plan@, constraints@, schedule@)
            },
            Err(e) => e matches EcsError::SchedulingLoop(rem) && stuck_set(
                rem@,
                constraints@,
                schedule@,
            ),
        },
{
    let batches = match build_constraint_batches(schedule, constraints) {
        Ok(b) => b,
        Err(e) => {
            return Err(e);
        },
    };
    let mut plan: Vec<Vec<Vec<SystemId>>> = Vec::new();
    let mut b: usize = 0;
    while b < batches.len()
        invariant
            b <= batches@.len(),
            plan@.len() == b,
            forall|b2: int, g: int, i1: int, i2: int|
                0 <= b2 < plan@.len() && 0 <= g < (#[trigger] plan@[b2])@.len() && 0 <= i1 < i2
                    < plan@[b2]@[g]@.len() && (#[trigger] plan@[b2]@[g]@[i1]).0 < accesses@.len()
                    && (#[trigger] plan@[b2]@[g]@[i2]).0 < accesses@.len() ==> !accesses_conflict(
                    accesses@[plan@[b2]@[g]@[i1].0 as int]@,
                    accesses@[plan@[b2]@[g]@[i2].0 as int]@,
                ),
            forall|b2: int|
                0 <= b2 < plan@.len() ==> flatten_multiset((#[trigger] plan@[b2])@)
                    == batches@[b2]@.to_multiset(),
        decreases batches@.len() - b,
    {
        let groups = conflict_free_batches(&batches[b], accesses);
        plan.push(groups);
        b = b + 1;
    }
    proof {
        broadcast use vstd::seq_lib::group_to_multiset_ensures;

        lemma_flatten_plan(plan@, batches@);
        assert forall|b: int, g: int, i: int, d: int|
            0 <= b < plan@.len() && 0 <= g < plan@[b]@.len() && 0 <= i < plan@[b]@[g]@.len()
                && plan@[b]@[g]@[i].0 < constraints@.len() && 0 <= d < constraints@[
            plan@[b]@[g]@[i].0 as int
        ].after@.len() && schedule@.contains(
            SystemId(#[trigger] constraints@[plan@[b]@[g]@[i].0 as int].after@[d]),
        ) implies exists|b2: int, g2: int, i2: int|
            0 <= b2 < b && 0 <= g2 < plan@[b2]@.len() && 0 <= i2 < plan@[b2]@[g2]@.len() && (
            #[trigger] plan@[b2]@[g2]@[i2]).0 == constraints@[
            plan@[b]@[g]@[i].0 as int
        ].after@[d] by {
            let x = plan@[b]@[g]@[i];
            let dep = constraints@[x.0 as int].after@[d];
            // the planned system sits somewhere in its constraint batch
            lemma_flatten_member(plan@[b]@, g, i);
            assert(batches@[b]@.to_multiset().count(x) > 0);
            assert(batches@[b]@.contains(x));
            let i3 = choose|i3: int| 0 <= i3 < batches@[b]@.len() && batches@[b]@[i3] == x;
            assert(constraints@[batches@[b]@[i3].0 as int].after@[d] == dep);
            // its dependency sits in an earlier constraint batch
            assert(exists|b2: int, i4: int|
                0 <= b2 < b && 0 <= i4 < batches@[b2]@.len() && (#[trigger] batches@[b2]@[i4]).0
                    == dep);
            let (b2, i4) = choose|b2: int, i4: int|
                0 <= b2 < b && 0 <= i4 < batches@[b2]@.len() && (#[trigger] batches@[b2]@[i4]).0
                    == dep;
            assert(batches@[b2]@[i4] == SystemId(dep));
            lemma_flatten_member_seq_contains(batches@[b2]@, i4);
            assert(flatten_multiset(plan@[b2]@).count(SystemId(dep)) > 0);
            lemma_flatten_contains(plan@[b2]@, SystemId(dep));
            let (g2, i2) = choose|g2: int, i2: int|
                0 <= g2 < plan@[b2]@.len() && 0 <= i2 < plan@[b2]@[g2]@.len() && (#[trigger] plan@[
                    b2
                ]@[g2]@[i2]) == SystemId(dep);
            assert(plan@[b2]@[g2]@[i2].0 == dep);
        }
    }
    Ok(plan)
}

/// A sequence member's multiset count is positive.
proof fn lemma_flatten_member_seq_contains(batch: Seq<SystemId>, i: int)
    requires
        0 <= i < batch.len(),
    ensures
        batch.to_multiset().count(batch[i]) > 0,
{
    broadcast use vstd::seq_lib::group_to_multiset_ensures;

    assert(batch.contains(batch[i]));
}

/// The multiset of all systems placed across a whole parallel plan.
pub open spec fn flatten_plan_multiset(plan: Seq<Vec<Vec<SystemId>>>) -> vstd::multiset::Multiset<
    SystemId,
>
    decreases plan.len(),
{
    if plan.len() == 0 {
        vstd::multiset::Multiset::empty()
    } else {
        flatten_plan_multiset(plan.drop_last()).add(flatten_multiset(plan.last()@))
    }
}

proof fn lemma_flatten_plan(plan: Seq<Vec<Vec<SystemId>>>, batches: Seq<Vec<SystemId>>)
    requires
        plan.len() == batches.len(),
        forall|b: int|
            0 <= b < plan.len() ==> flatten_multiset((#[trigger] plan[b])@) == batches[
                b
            ]@.to_multiset(),
    ensures
        flatten_plan_multiset(plan) == flatten_multiset(batches),
    decreases plan.len(),
{
    if plan.len() > 0 {
        lemma_flatten_plan(plan.drop_last(), batches.drop_last());
        assert(batches.drop_last().push(batches.last()) =~= batches);
        lemma_flatten_multiset_push(batches.drop_last(), batches.last());
    }
}

} // verus!
