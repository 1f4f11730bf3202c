//! Query filters: a filter is a conjunction of terms, each term either
//! requiring a component (`With`), forbidding one (`Without`), or accepting
//! any of several all-of groups (`Or`).  The evaluator is verified against
//! the recursive-descent meaning of that grammar over a component set.

use vstd::prelude::*;
use crate::component::ComponentId;
use crate::sorted_vec::SortedVec;

verus! {

broadcast use vstd::std_specs::vec::group_vec_axioms;

/// One filter term.
#[derive(Debug)]
pub enum FilterElem {
    With(ComponentId),
    Without(ComponentId),
    /// Satisfied when at least one inner all-of group is fully satisfied.
    Or(Vec<Vec<FilterElem>>),
}

/// Does one term accept a component set?
pub open spec fn elem_matches(comps: Set<u32>, el: FilterElem) -> bool
    decreases el, 0nat, 0nat,
{
    match el {
        FilterElem::With(c) => comps.contains(c.0),
        FilterElem::Without(c) => !comps.contains(c.0),
        FilterElem::Or(groups) => or_any(comps, groups, 0),
    }
}

/// Does some group at position `gi` or later fully accept the set?
pub open spec fn or_any(comps: Set<u32>, groups: Vec<Vec<FilterElem>>, gi: int) -> bool
    decreases groups, 1nat, groups@.len() - gi,
{
    if gi < 0 || gi >= groups@.len() {
        false
    } else {
        group_all(comps, groups@[gi], 0) || or_any(comps, groups, gi + 1)
    }
}

/// Do all terms of one group from position `i` on accept the set?
pub open spec fn group_all(comps: Set<u32>, group: Vec<FilterElem>, i: int) -> bool
    decreases group, 0nat, group@.len() - i,
{
    if i < 0 || i >= group@.len() {
        true
    } else {
        elem_matches(comps, group@[i]) && group_all(comps, group, i + 1)
    }
}

/// Does a conjunction of terms accept a component set?
pub open spec fn filter_matches(comps: Set<u32>, filter: Seq<FilterElem>) -> bool {
    forall|i: int| 0 <= i < filter.len() ==> elem_matches(comps, #[trigger] filter[i])
}

/// Evaluate a whole filter against a sorted component-id set.
pub fn comp_ids_compatible_with_filter(comp_ids: &SortedVec, filter: &Vec<FilterElem>) -> (r: bool)
    ensures
        r == filter_matches(comp_ids@.to_set(), filter@),
{
    let mut i: usize = 0;
    while i < filter.len()
        invariant
            i <= filter@.len(),
            forall|k: int| 0 <= k < i ==> elem_matches(comp_ids@.to_set(), #[trigger] filter@[k]),
        decreases filter@.len() - i,
    {
        if !handle_filter_elem(comp_ids, &filter[i]) {
            proof {
                assert(!elem_matches(comp_ids@.to_set(), filter@[i as int]));
            }
            return false;
        }
        i = i + 1;
    }
    true
}

/// Evaluate one term.
pub fn handle_filter_elem(comp_ids: &SortedVec, filter_elem: &FilterElem) -> (r: bool)
    ensures
        r == elem_matches(comp_ids@.to_set(), *filter_elem),
    decreases *filter_elem,
{
    match filter_elem {
        FilterElem::With(id) => {
            let c = comp_ids.contains(id.0);
            proof {
                assert(comp_ids@.to_set().contains(id.0) == comp_ids@.contains(id.0));
            }
            c
        },
        FilterElem::Without(id) => {
            let c = comp_ids.contains(id.0);
            proof {
                assert(comp_ids@.to_set().contains(id.0) == comp_ids@.contains(id.0));
            }
            !c
        },
        FilterElem::Or(or_elems) => {
            let r = handle_or_elems(comp_ids, or_elems);
            proof {
                assert(*filter_elem == FilterElem::Or(*or_elems));
            }
            r
        },
    }
}

/// Evaluate the groups of an `Or` term: accepted when some group's terms
/// all accept.  Groups are scanned from the back so the loop's running
/// result is exactly the meaning of the remaining suffix.
pub fn handle_or_elems(comp_ids: &SortedVec, or_elems: &Vec<Vec<FilterElem>>) -> (r: bool)
    ensures
        r == elem_matches(comp_ids@.to_set(), FilterElem::Or(*or_elems)),
    decreases or_elems@,
{
    let mut gi: usize = or_elems.len();
    let mut acc = false;
    while gi > 0
        invariant
            gi <= or_elems@.len(),
            acc == or_any(comp_ids@.to_set(), *or_elems, gi as int),
        decreases gi,
    {
        gi = gi - 1;
        let group = &or_elems[gi];
        let mut i: usize = group.len();
        let mut all = true;
        while i > 0
            invariant
                0 <= gi < or_elems@.len(),
                group == &or_elems[gi as int],
                i <= group@.len(),
                all == group_all(comp_ids@.to_set(), or_elems@[gi as int], i as int),
            decreases i,
        {
            i = i - 1;
            proof {
                assert(group@[i as int] == or_elems@[gi as int]@[i as int]);
            }
            let ok = handle_filter_elem(comp_ids, &group[i]);
            all = ok && all;
        }
        acc = all || acc;
    }
    acc
}

} // verus!
