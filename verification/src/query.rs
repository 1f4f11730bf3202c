//! Queries: a compiled `(required components, filter)` pair resolved once
//! into the list of archetypes it matches, and iteration over the rows of
//! those archetypes.  An archetype is in the list exactly when the required
//! set is a subset of its component set and the filter accepts that set.

use vstd::prelude::*;
use crate::component::ArchetypeId;
use crate::entity::EntityKey;
use crate::entity_storage::EntityStorage;
use crate::query_filter::{comp_ids_compatible_with_filter, filter_matches, FilterElem};
use crate::sorted_vec::SortedVec;

verus! {

/// The compiled, cached form of one query.
pub struct QueryState {
    pub comp_ids: SortedVec,
    pub arch_ids: Vec<ArchetypeId>,
    pub filter: Vec<FilterElem>,
}

impl QueryState {
    /// An archetype belongs to this query exactly when it holds every
    /// required component and its component set passes the filter.
    pub open spec fn selects(self, es: EntityStorage, a: int) -> bool {
        &&& es.arch_matches(a, self.comp_ids@)
        &&& filter_matches(es.arch_set(a), self.filter@)
    }

    /// The matching list is exactly the selected archetypes, each once, in
    /// ascending order.
    pub open spec fn resolved_against(self, es: EntityStorage) -> bool {
        &&& forall|k: int|
            0 <= k < self.arch_ids@.len() ==> (#[trigger] self.arch_ids@[k]).0
                < es.spec_archetypes().len()
        &&& forall|k1: int, k2: int|
            0 <= k1 < k2 < self.arch_ids@.len() ==> self.arch_ids@[k1].0 < self.arch_ids@[k2].0
        &&& forall|a: int|
            0 <= a < es.spec_archetypes().len() ==> (self.arch_ids@.contains(ArchetypeId(a as u32))
                <==> self.selects(es, a))
    }
}

/// Resolve a query: candidate archetypes by subset match, then the filter
/// over each candidate's full component set.
#[verifier::loop_isolation(false)]
pub fn create_query_state(es: &EntityStorage, comp_ids: SortedVec, filter: Vec<FilterElem>) -> (r:
    QueryState)
    requires
        es.wf(),
        comp_ids.wf(),
    ensures
        r.comp_ids == comp_ids,
        r.filter == filter,
        r.resolved_against(*es),
{
    let candidates = es.find_fitting_archetypes(&comp_ids);
    let mut arch_ids: Vec<ArchetypeId> = Vec::new();
    let mut k: usize = 0;
    while k < candidates.len()
        invariant
            forall|k2: int|
                0 <= k2 < arch_ids@.len() ==> (#[trigger] arch_ids@[k2]).0
                    < es.spec_archetypes().len(),
            forall|k1: int, k2: int|
                0 <= k1 < k2 < arch_ids@.len() ==> arch_ids@[k1].0 < arch_ids@[k2].0,
            k <= candidates@.len(),
            arch_ids@.len() <= k,
            forall|k2: int|
                0 <= k2 < arch_ids@.len() ==> arch_ids@[k2].0 <= candidates@[k - 1].0,
            forall|a: int|
                0 <= a < es.spec_archetypes().len() ==> (arch_ids@.contains(ArchetypeId(a as u32))
                    <==> (candidates@.subrange(0, k as int).contains(ArchetypeId(a as u32))
                    && filter_matches(es.arch_set(a), filter@))),
        decreases candidates@.len() - k,
    {
        let aid = candidates[k];
        let full = es.full_arch_set_sorted(aid.0 as usize);
        let passes = comp_ids_compatible_with_filter(&full, &filter);
        let ghost pre = arch_ids@;
        proof {
            assert forall|a2: int|
                0 <= a2 < es.spec_archetypes().len() implies (#[trigger] pre.contains(
                ArchetypeId(a2 as u32),
            ) <==> (candidates@.subrange(0, k as int).contains(ArchetypeId(a2 as u32))
                && filter_matches(es.arch_set(a2), filter@))) by {
                assert(pre == arch_ids@);
                let t = ArchetypeId(a2 as u32);
                let b1 = arch_ids@.contains(t);
                let b2 = candidates@.subrange(0, k as int).contains(t);
                let b3 = filter_matches(es.arch_set(a2), filter@);
            }
        }
        if passes {
            proof {
                if arch_ids@.len() > 0 {
                    assert(arch_ids@[arch_ids@.len() - 1].0 <= candidates@[k - 1].0);
                    assert(candidates@[k - 1].0 < candidates@[k as int].0);
                }
            }
            arch_ids.push(aid);
        }
        proof {
            let sub1 = candidates@.subrange(0, k as int);
            let sub2 = candidates@.subrange(0, (k + 1) as int);
            assert(sub2 =~= sub1.push(candidates@[k as int]));
            assert forall|a: int|
                0 <= a < es.spec_archetypes().len() implies (#[trigger] arch_ids@.contains(
                ArchetypeId(a as u32),
            ) <==> (candidates@.subrange(0, (k + 1) as int).contains(ArchetypeId(a as u32))
                && filter_matches(es.arch_set(a), filter@))) by {
                let target = ArchetypeId(a as u32);
                if arch_ids@.contains(target) {
                    let w = choose|w: int| 0 <= w < arch_ids@.len() && arch_ids@[w] == target;
                    if w < pre.len() {
                        assert(pre[w] == target);
                        assert(pre.contains(target));
                        assert(sub1.contains(target) && filter_matches(es.arch_set(a), filter@));
                        let w3 = choose|w3: int| 0 <= w3 < sub1.len() && sub1[w3] == target;
                        assert(sub2[w3] == target);
                        assert(sub2.contains(target));
                    } else {
                        assert(arch_ids@[w] == aid);
                        assert(aid == target);
                        assert(es.arch_set(a) == full@.to_set());
                        assert(passes == filter_matches(full@.to_set(), filter@));
                        assert(filter_matches(es.arch_set(a), filter@));
                        assert(sub2[k as int] == target);
                        assert(sub2.contains(target));
                    }
                }
                if sub2.contains(target) && filter_matches(es.arch_set(a), filter@) {
                    let w = choose|w: int| 0 <= w < sub2.len() && sub2[w] == target;
                    if w < k {
                        assert(sub1[w] == target);
                        assert(sub1.contains(target));
                        assert(pre.contains(target));
                        let w2 = choose|w2: int| 0 <= w2 < pre.len() && pre[w2] == target;
                        assert(arch_ids@[w2] == target);
                        assert(arch_ids@.contains(target));
                    } else {
                        assert(sub2[k as int] == target);
                        assert(aid == target);
                        assert(es.arch_set(a) == full@.to_set());
                        assert(passes == filter_matches(full@.to_set(), filter@));
                        assert(passes);
                        assert(arch_ids@[arch_ids@.len() - 1] == aid);
                        assert(arch_ids@.contains(target));
                    }
                }
            }
        }
        k = k + 1;
    }
    proof {
        assert(candidates@.subrange(0, candidates@.len() as int) =~= candidates@);
    }
    QueryState { comp_ids, arch_ids, filter }
}

/// The concatenation of the matching archetypes' owner-key lists, in
/// archetype order, rows in order: what one full iteration yields.
pub open spec fn concat_keys(es: EntityStorage, arch_ids: Seq<ArchetypeId>) -> Seq<EntityKey>
    decreases arch_ids.len(),
{
    if arch_ids.len() == 0 {
        Seq::empty()
    } else {
        concat_keys(es, arch_ids.drop_last()) + es.spec_tables()[
            arch_ids.last().0 as int
        ].spec_entities()
    }
}

/// Every key one full iteration yields names a row of one of the matched
/// tables.
proof fn lemma_concat_keys_member(es: EntityStorage, arch_ids: Seq<ArchetypeId>, p: int)
    requires
        forall|i: int|
            0 <= i < arch_ids.len() ==> (#[trigger] arch_ids[i]).0 < es.spec_tables().len(),
        0 <= p < concat_keys(es, arch_ids).len(),
    ensures
        exists|t: int, r: int|
            0 <= t < arch_ids.len() && 0 <= r < es.spec_tables()[
                arch_ids[t].0 as int
            ].spec_entities().len() && concat_keys(es, arch_ids)[p] == #[trigger] es.spec_tables()[
                arch_ids[t].0 as int
            ].spec_entities()[r],
    decreases arch_ids.len(),
{
    let pre = concat_keys(es, arch_ids.drop_last());
    if p < pre.len() {
        lemma_concat_keys_member(es, arch_ids.drop_last(), p);
        let (t, r) = choose|t: int, r: int|
            0 <= t < arch_ids.drop_last().len() && 0 <= r < es.spec_tables()[
                arch_ids.drop_last()[t].0 as int
            ].spec_entities().len() && concat_keys(es, arch_ids.drop_last())[p]
                == #[trigger] es.spec_tables()[
                arch_ids.drop_last()[t].0 as int
            ].spec_entities()[r];
        assert(arch_ids[t] == arch_ids.drop_last()[t]);
        assert(concat_keys(es, arch_ids)[p] == pre[p]);
        assert(0 <= t < arch_ids.len() && 0 <= r < es.spec_tables()[
            arch_ids[t].0 as int
        ].spec_entities().len() && concat_keys(es, arch_ids)[p] == es.spec_tables()[
            arch_ids[t].0 as int
        ].spec_entities()[r]);
    } else {
        let t = arch_ids.len() - 1;
        let r = p - pre.len();
        assert(arch_ids[t] == arch_ids.last());
        assert(0 <= r < es.spec_tables()[arch_ids[t].0 as int].spec_entities().len());
        assert(concat_keys(es, arch_ids)[p] == es.spec_tables()[
            arch_ids[t].0 as int
        ].spec_entities()[r]);
    }
}

/// Iteration completeness has a uniqueness half: over distinct matched
/// archetypes, a well-formed catalog yields each entity key exactly once,
/// because every live key names exactly one table row.
pub proof fn lemma_concat_keys_unique(es: EntityStorage, arch_ids: Seq<ArchetypeId>)
    requires
        es.wf(),
        forall|i: int|
            0 <= i < arch_ids.len() ==> (#[trigger] arch_ids[i]).0 < es.spec_tables().len(),
        forall|i: int, j: int|
            0 <= i < j < arch_ids.len() ==> (#[trigger] arch_ids[i]).0 != (
            #[trigger] arch_ids[j]).0,
    ensures
        forall|p1: int, p2: int|
            0 <= p1 < p2 < concat_keys(es, arch_ids).len() ==> concat_keys(es, arch_ids)[p1]
                != concat_keys(es, arch_ids)[p2],
    decreases arch_ids.len(),
{
    if arch_ids.len() > 0 {
        lemma_concat_keys_unique(es, arch_ids.drop_last());
        let pre = concat_keys(es, arch_ids.drop_last());
        let a = arch_ids.last().0 as int;
        let tail = es.spec_tables()[a].spec_entities();
        assert forall|p1: int, p2: int|
            0 <= p1 < p2 < concat_keys(es, arch_ids).len() implies concat_keys(es, arch_ids)[p1]
            != concat_keys(es, arch_ids)[p2] by {
            let k1 = concat_keys(es, arch_ids)[p1];
            let k2 = concat_keys(es, arch_ids)[p2];
            if k1 == k2 {
                if p2 < pre.len() {
                    // both in the shorter concatenation
                    assert(pre[p1] != pre[p2]);
                } else if p1 >= pre.len() {
                    // both rows of the last table: a live key names one row
                    let r1 = p1 - pre.len();
                    let r2 = p2 - pre.len();
                    assert(es.wf_archetype(a));
                    assert(r2 < es.spec_tables()[a].spec_len());
                    assert(es.spec_entities().spec_get(tail[r1]) == Some(
                        crate::entity::Entity {
                            archetype_id: ArchetypeId(a as u32),
                            row_id: r1 as u32,
                        },
                    ));
                    assert(es.spec_entities().spec_get(tail[r2]) == Some(
                        crate::entity::Entity {
                            archetype_id: ArchetypeId(a as u32),
                            row_id: r2 as u32,
                        },
                    ));
                } else {
                    // one in an earlier table, one in the last: a live key
                    // names one archetype, and the matched ids are distinct
                    lemma_concat_keys_member(es, arch_ids.drop_last(), p1);
                    let (t, r) = choose|t: int, r: int|
                        0 <= t < arch_ids.drop_last().len() && 0 <= r < es.spec_tables()[
                            arch_ids.drop_last()[t].0 as int
                        ].spec_entities().len() && concat_keys(es, arch_ids.drop_last())[p1]
                            == #[trigger] es.spec_tables()[
                            arch_ids.drop_last()[t].0 as int
                        ].spec_entities()[r];
                    let a1 = arch_ids.drop_last()[t].0 as int;
                    let r2 = p2 - pre.len();
                    assert(arch_ids[t] == arch_ids.drop_last()[t]);
                    assert(es.wf_archetype(a1));
                    assert(es.wf_archetype(a));
                    assert(r < es.spec_tables()[a1].spec_len());
                    assert(r2 < es.spec_tables()[a].spec_len());
                    assert(es.spec_entities().spec_get(k1) == Some(
                        crate::entity::Entity {
                            archetype_id: ArchetypeId(a1 as u32),
                            row_id: r as u32,
                        },
                    ));
                    assert(es.spec_entities().spec_get(k2) == Some(
                        crate::entity::Entity {
                            archetype_id: ArchetypeId(a as u32),
                            row_id: r2 as u32,
                        },
                    ));
                    assert(arch_ids[t].0 != arch_ids.last().0);
                }
            }
        }
    }
}

/// A query over resolved state.
pub struct Query {
    pub state: QueryState,
}

impl Query {
    pub fn new(state: QueryState) -> (r: Self)
        ensures
            r.state == state,
    {
        Self { state }
    }

    /// The keys of every entity in every matching archetype, archetype by
    /// archetype, rows in order: the restartable iteration the query
    /// offers.  Every key handed out is live and owned by a matching
    /// archetype's row.
    pub fn iter(&self, es: &EntityStorage) -> (r: Vec<EntityKey>)
        requires
            es.wf(),
            forall|k: int|
                0 <= k < self.state.arch_ids@.len() ==> (#[trigger] self.state.arch_ids@[k]).0
                    < es.spec_archetypes().len(),
        ensures
            // the result is exactly the matching archetypes' key lists,
            // concatenated in archetype order
            r@ == concat_keys(*es, self.state.arch_ids@),
            forall|i: int|
                0 <= i < r@.len() ==> {
                    let e = es.spec_entities().spec_get(#[trigger] r@[i]);
                    e is Some && self.state.arch_ids@.contains(e->0.archetype_id)
                },
            // over distinct archetypes every key is yielded exactly once
            (forall|i: int, j: int|
                0 <= i < j < self.state.arch_ids@.len() ==> (#[trigger] self.state.arch_ids@[
                    i
                ]).0 != (#[trigger] self.state.arch_ids@[j]).0) ==> forall|p1: int, p2: int|
                0 <= p1 < p2 < r@.len() ==> r@[p1] != r@[p2],
    {
        proof {
            if forall|i: int, j: int|
                0 <= i < j < self.state.arch_ids@.len() ==> (#[trigger] self.state.arch_ids@[
                    i
                ]).0 != (#[trigger] self.state.arch_ids@[j]).0 {
                lemma_concat_keys_unique(*es, self.state.arch_ids@);
            }
        }
        let mut out: Vec<EntityKey> = Vec::new();
        let mut k: usize = 0;
        while k < self.state.arch_ids.len()
            invariant
                es.wf(),
                forall|k2: int|
                    0 <= k2 < self.state.arch_ids@.len() ==> (#[trigger] self.state.arch_ids@[
                        k2
                    ]).0 < es.spec_archetypes().len(),
                k <= self.state.arch_ids@.len(),
                out@ == concat_keys(*es, self.state.arch_ids@.subrange(0, k as int)),
                forall|i: int|
                    0 <= i < out@.len() ==> {
                        let e = es.spec_entities().spec_get(#[trigger] out@[i]);
                        e is Some && self.state.arch_ids@.contains(e->0.archetype_id)
                    },
            decreases self.state.arch_ids@.len() - k,
        {
            let aid = self.state.arch_ids[k];
            let ghost out_pre = out@;
            let keys = es.table_entity_keys(aid.0 as usize);
            let mut i: usize = 0;
            while i < keys.len()
                invariant
                    out@ == out_pre + keys@.subrange(0, i as int),
                    es.wf(),
                    k < self.state.arch_ids@.len(),
                    aid == self.state.arch_ids@[k as int],
                    aid.0 < es.spec_archetypes().len(),
                    i <= keys@.len(),
                    forall|i2: int|
                        0 <= i2 < keys@.len() ==> es.spec_entities().spec_get(#[trigger] keys@[i2])
                            == Some(
                            crate::entity::Entity {
                                archetype_id: aid,
                                row_id: i2 as u32,
                            },
                        ),
                    forall|i2: int|
                        0 <= i2 < out@.len() ==> {
                            let e = es.spec_entities().spec_get(#[trigger] out@[i2]);
                            e is Some && self.state.arch_ids@.contains(e->0.archetype_id)
                        },
                decreases keys@.len() - i,
            {
                proof {
                    assert(self.state.arch_ids@[k as int] == aid);
                    assert(self.state.arch_ids@.contains(aid));
                }
                out.push(keys[i]);
                proof {
                    assert(out@ =~= out_pre + keys@.subrange(0, (i + 1) as int));
                }
                i = i + 1;
            }
            proof {
                let sub1 = self.state.arch_ids@.subrange(0, k as int);
                let sub2 = self.state.arch_ids@.subrange(0, (k + 1) as int);
                assert(sub2.drop_last() =~= sub1);
                assert(sub2.last() == aid);
                assert(keys@.subrange(0, keys@.len() as int) =~= keys@);
                assert(out@ =~= concat_keys(*es, sub2));
            }
            k = k + 1;
        }
        proof {
            assert(self.state.arch_ids@.subrange(0, self.state.arch_ids@.len() as int)
                =~= self.state.arch_ids@);
        }
        out
    }
}

} // verus!
