//! A vector of `u32` ids kept in ascending order, used as the canonical form
//! of a component-id set: sorted order makes subset tests a linear merge and
//! makes equal sets compare equal element for element.

use vstd::prelude::*;

verus! {

/// A sequence is sorted when every pair of positions is ordered.
pub open spec fn is_sorted(s: Seq<u32>) -> bool {
    forall|i: int, j: int| 0 <= i < j < s.len() ==> s[i] <= s[j]
}

/// No id occurs twice.
pub open spec fn no_duplicates(s: Seq<u32>) -> bool {
    forall|i: int, j: int| 0 <= i < j < s.len() ==> s[i] != s[j]
}

/// The position of `x` in `s` (meaningful when `s` contains `x` exactly
/// once, as in a sorted duplicate-free vector).
pub open spec fn seq_index_of(s: Seq<u32>, x: u32) -> int {
    choose|j: int| 0 <= j < s.len() && s[j] == x
}

/// In a sorted duplicate-free sequence the position of a value is unique,
/// so any found index is `seq_index_of`.
pub proof fn lemma_seq_index_of_unique(s: Seq<u32>, x: u32, j: int)
    requires
        no_duplicates(s),
        0 <= j < s.len(),
        s[j] == x,
    ensures
        seq_index_of(s, x) == j,
{
    assert(0 <= j < s.len() && s[j] == x);
    let j2 = seq_index_of(s, x);
    assert(0 <= j2 < s.len() && s[j2] == x) by {
        assert(exists|jj: int| 0 <= jj < s.len() && s[jj] == x);
    }
}

/// Every element of `sub` occurs in `sup` (set-wise containment).
pub open spec fn seq_subset_of(sub: Seq<u32>, sup: Seq<u32>) -> bool {
    forall|x: u32| sub.contains(x) ==> sup.contains(x)
}

proof fn lemma_to_multiset_insert_at(s: Seq<u32>, i: int, x: u32)
    requires
        0 <= i <= s.len(),
    ensures
        s.insert(i, x).to_multiset() =~= s.to_multiset().insert(x),
{
    let t = s.insert(i, x);
    t.to_multiset_ensures();
    s.to_multiset_ensures();
    assert(t.remove(i) =~= s);
    assert(t[i] == x);
    assert(t.remove(i).to_multiset() =~= t.to_multiset().remove(x));
    assert(t.contains(x)) by {
        assert(t[i] == x);
    }
    assert(t.to_multiset().count(x) > 0);
    assert(t.to_multiset() =~= t.to_multiset().remove(x).insert(x));
}

/// Sorted vector of ids.  The well-formedness invariant is exactly
/// sortedness; duplicates are representable and detected separately.
pub struct SortedVec {
    vec: Vec<u32>,
}

impl SortedVec {
    pub closed spec fn view(self) -> Seq<u32> {
        self.vec@
    }

    pub open spec fn wf(self) -> bool {
        is_sorted(self@)
    }

    pub fn new() -> (r: Self)
        ensures
            r.wf(),
            r@ == Seq::<u32>::empty(),
    {
        Self { vec: Vec::new() }
    }

    pub fn with_capacity(cap: usize) -> (r: Self)
        ensures
            r.wf(),
            r@ == Seq::<u32>::empty(),
    {
        Self { vec: Vec::with_capacity(cap) }
    }

    /// Sort an arbitrary vector of ids into a `SortedVec` holding exactly the
    /// same elements (as a multiset, so duplicates are preserved).
    pub fn from_vec(input: Vec<u32>) -> (r: Self)
        ensures
            r.wf(),
            r@.to_multiset() == input@.to_multiset(),
            r@.len() == input@.len(),
    {
        broadcast use vstd::seq_lib::group_to_multiset_ensures;

        let mut vec: Vec<u32> = Vec::new();
        let mut k: usize = 0;
        while k < input.len()
            invariant
                k <= input@.len(),
                is_sorted(vec@),
                vec@.to_multiset() == input@.subrange(0, k as int).to_multiset(),
                vec@.len() == k,
            decreases input@.len() - k,
        {
            let x = input[k];
            // find the insertion position
            let mut pos: usize = 0;
            while pos < vec.len() && vec[pos] <= x
                invariant
                    pos <= vec@.len(),
                    forall|i: int| 0 <= i < pos ==> vec@[i] <= x,
                decreases vec@.len() - pos,
            {
                pos = pos + 1;
            }
            proof {
                lemma_to_multiset_insert_at(vec@, pos as int, x);
                let pre = input@.subrange(0, k as int);
                pre.to_multiset_ensures();
                assert(pre.push(x) =~= input@.subrange(0, (k + 1) as int));
                assert(pre.push(x).to_multiset() =~= pre.to_multiset().insert(x));
            }
            vec.insert(pos, x);
            k = k + 1;
        }
        proof {
            assert(input@.subrange(0, input@.len() as int) =~= input@);
        }
        Self { vec }
    }

    /// Wrap a vector that is already in ascending order.
    pub fn from_sorted(vec: Vec<u32>) -> (r: Self)
        requires
            is_sorted(vec@),
        ensures
            r.wf(),
            r@ == vec@,
    {
        Self { vec }
    }

    /// The underlying sorted vector.
    pub fn get_vec(&self) -> (r: &Vec<u32>)
        ensures
            r@ == self@,
    {
        &self.vec
    }

    pub fn len(&self) -> (r: usize)
        ensures
            r == self@.len(),
    {
        self.vec.len()
    }

    /// Report a duplicated id, or `None` when all ids are distinct.
    pub fn check_duplicates(&self) -> (r: Option<u32>)
        requires
            self.wf(),
        ensures
            r is None <==> no_duplicates(self@),
            match r {
                Some(d) => self@.to_multiset().count(d) >= 2,
                None => true,
            },
    {
        if self.vec.len() == 0 {
            return None;
        }
        let mut i: usize = 0;
        while i < self.vec.len() - 1
            invariant
                self.wf(),
                self.vec@.len() >= 1,
                i < self.vec@.len(),
                forall|k: int| 0 <= k < i ==> #[trigger] self.vec@[k] != self.vec@[k + 1],
            decreases self.vec@.len() - i,
        {
            if self.vec[i] == self.vec[i + 1] {
                let d = self.vec[i];
                proof {
                    let s = self.vec@;
                    s.to_multiset_ensures();
                    let without = s.remove(i as int);
                    without.to_multiset_ensures();
                    assert(without.to_multiset() =~= s.to_multiset().remove(s[i as int]));
                    assert(without.contains(d)) by {
                        assert(without[i as int] == d);
                    }
                    assert(without.to_multiset().count(d) > 0);
                    assert(s.to_multiset().count(d) >= 2);
                    assert(!no_duplicates(s)) by {
                        assert(0 <= i < i + 1 < s.len() && s[i as int] == s[i + 1]);
                    }
                }
                return Some(d);
            }
            i = i + 1;
        }
        proof {
            // no adjacent duplicates in a sorted vector means no duplicates at all
            assert forall|a: int, b: int| 0 <= a < b < self.vec@.len() implies self.vec@[a]
                != self.vec@[b] by {
                assert(self.vec@[a] <= self.vec@[a + 1]);
                if self.vec@[a] == self.vec@[b] {
                    assert(self.vec@[a + 1] <= self.vec@[b]);
                }
            }
        }
        None
    }

    /// Does every element of `self` occur in `other`?  Linear merge over the
    /// two sorted vectors.
    pub fn is_subset_of2(&self, other: &SortedVec) -> (r: bool)
        requires
            self.wf(),
            other.wf(),
        ensures
            r == seq_subset_of(self@, other@),
    {
        let mut i: usize = 0;
        let mut j: usize = 0;
        while i < self.vec.len()
            invariant
                self.wf(),
                other.wf(),
                i <= self.vec@.len(),
                j <= other.vec@.len(),
                forall|k: int| 0 <= k < i ==> other.vec@.contains(#[trigger] self.vec@[k]),
                forall|k: int| 0 <= k < j ==> i < self.vec@.len() ==> other.vec@[k] < self.vec@[
                    i as int
                ],
            decreases self.vec@.len() - i,
        {
            let x = self.vec[i];
            while j < other.vec.len() && other.vec[j] < x
                invariant
                    other.wf(),
                    i < self.vec@.len(),
                    x == self.vec@[i as int],
                    j <= other.vec@.len(),
                    forall|k: int| 0 <= k < j ==> other.vec@[k] < x,
                decreases other.vec@.len() - j,
            {
                j = j + 1;
            }
            if j >= other.vec.len() || other.vec[j] != x {
                proof {
                    // x is absent from other: entries before j are smaller,
                    // entries from j on are at least other[j] which differs
                    assert forall|k: int| 0 <= k < other.vec@.len() implies other.vec@[k]
                        != x by {
                        if k >= j {
                            if j < other.vec@.len() {
                                assert(other.vec@[j as int] <= other.vec@[k]);
                            }
                        }
                    }
                    assert(!other.vec@.contains(x));
                    assert(self.vec@.contains(x)) by {
                        assert(self.vec@[i as int] == x);
                    }
                }
                return false;
            }
            proof {
                assert(other.vec@.contains(x)) by {
                    assert(other.vec@[j as int] == x);
                }
                assert forall|k: int|
                    0 <= k < j && i + 1 < self.vec@.len() implies other.vec@[k] < self.vec@[
                    i + 1
                ] by {
                    assert(self.vec@[i as int] <= self.vec@[i + 1]);
                }
            }
            // x matched; matching the next element may reuse position j,
            // since self may hold duplicates
            i = i + 1;
        }
        true
    }

    /// Same question answered by a plain nested scan.
    pub fn is_subset_of(&self, wholeset: &SortedVec) -> (r: bool)
        requires
            self.wf(),
            wholeset.wf(),
        ensures
            r == seq_subset_of(self@, wholeset@),
    {
        let mut i: usize = 0;
        while i < self.vec.len()
            invariant
                i <= self.vec@.len(),
                forall|k: int| 0 <= k < i ==> wholeset.vec@.contains(#[trigger] self.vec@[k]),
            decreases self.vec@.len() - i,
        {
            let x = self.vec[i];
            let mut found = false;
            let mut j: usize = 0;
            while j < wholeset.vec.len()
                invariant
                    j <= wholeset.vec@.len(),
                    found ==> wholeset.vec@.contains(x),
                    !found ==> forall|k: int| 0 <= k < j ==> wholeset.vec@[k] != x,
                decreases wholeset.vec@.len() - j,
            {
                if wholeset.vec[j] == x {
                    proof {
                        assert(wholeset.vec@[j as int] == x);
                    }
                    found = true;
                }
                j = j + 1;
            }
            if !found {
                proof {
                    assert(self.vec@.contains(x)) by {
                        assert(self.vec@[i as int] == x);
                    }
                }
                return false;
            }
            i = i + 1;
        }
        true
    }

    /// Value at position `i`.
    pub fn index(&self, i: usize) -> (r: u32)
        requires
            i < self@.len(),
        ensures
            r == self@[i as int],
    {
        self.vec[i]
    }

    /// Linear membership test.
    pub fn contains(&self, x: u32) -> (r: bool)
        ensures
            r == self@.contains(x),
    {
        let mut j: usize = 0;
        while j < self.vec.len()
            invariant
                j <= self.vec@.len(),
                forall|k: int| 0 <= k < j ==> self.vec@[k] != x,
            decreases self.vec@.len() - j,
        {
            if self.vec[j] == x {
                proof {
                    assert(self.vec@[j as int] == x);
                }
                return true;
            }
            j = j + 1;
        }
        false
    }
}

impl Clone for SortedVec {
    fn clone(&self) -> (r: Self)
        ensures
            r@ == self@,
    {
        Self { vec: self.vec.clone() }
    }
}

impl PartialEq for SortedVec {
    /// Element-for-element comparison of the two sorted vectors.
    fn eq(&self, other: &Self) -> (r: bool) {
        let v1 = self.get_vec();
        let v2 = other.get_vec();
        if v1.len() != v2.len() {
            return false;
        }
        let mut i: usize = 0;
        while i < v1.len()
            invariant
                v1@.len() == v2@.len(),
                v1@ == self@,
                v2@ == other@,
                i <= v1@.len(),
                forall|k: int| 0 <= k < i ==> v1@[k] == v2@[k],
            decreases v1@.len() - i,
        {
            if v1[i] != v2[i] {
                return false;
            }
            i = i + 1;
        }
        proof {
            assert(self@ =~= other@);
        }
        true
    }
}

impl vstd::std_specs::cmp::PartialEqSpecImpl for SortedVec {
    open spec fn obeys_eq_spec() -> bool {
        true
    }

    open spec fn eq_spec(&self, other: &Self) -> bool {
        self@ == other@
    }
}

} // verus!
