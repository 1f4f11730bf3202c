//! Columnar (structure-of-arrays) storage for one archetype: one erased
//! column per columnar component, all columns always the same length, row
//! `i` of every column together forming entity row `i`'s columnar data.

use vstd::prelude::*;
use crate::component::{ArchetypeId, ComponentInfo};
use crate::sorted_vec::SortedVec;
use crate::thin_blob_vec::{clone_bytes, ThinBlobVec};

verus! {

pub struct TableSoA {
    archetype_id: ArchetypeId,
    comp_ids: Vec<u32>,
    columns: Vec<ThinBlobVec>,
    len: usize,
    cap: usize,
}

impl TableSoA {
    pub closed spec fn spec_archetype_id(self) -> ArchetypeId {
        self.archetype_id
    }

    /// The component ids this table stores, in ascending order.
    pub closed spec fn spec_comp_ids(self) -> Seq<u32> {
        self.comp_ids@
    }

    /// Number of rows.
    pub closed spec fn spec_len(self) -> usize {
        self.len
    }

    /// The records of column `j`.
    pub closed spec fn col(self, j: int) -> Seq<Seq<u8>> {
        self.columns@[j]@
    }

    /// Element size of column `j`.
    pub closed spec fn col_elem_size(self, j: int) -> usize {
        self.columns@[j].spec_elem_size()
    }

    pub open spec fn col_count(self) -> nat {
        self.spec_comp_ids().len()
    }

    pub closed spec fn spec_col_count(self) -> nat {
        self.columns@.len()
    }

    pub closed spec fn wf(self) -> bool {
        &&& self.columns@.len() == self.comp_ids@.len()
        &&& forall|j: int|
            0 <= j < self.columns@.len() ==> (#[trigger] self.columns@[j]).wf()
                && self.columns@[j]@.len() == self.len
    }

    /// Create the table for an archetype: one empty column per columnar
    /// component, sized by the component's registered layout.
    pub fn new(archetype_id: ArchetypeId, components: &Vec<ComponentInfo>, soa_comp_ids: &SortedVec)
        -> (r: Self)
        requires
            forall|i: int|
                0 <= i < soa_comp_ids@.len() ==> #[trigger] soa_comp_ids@[i] < components@.len(),
        ensures
            r.wf(),
            r.spec_archetype_id() == archetype_id,
            r.spec_comp_ids() == soa_comp_ids@,
            r.spec_len() == 0,
            forall|j: int|
                0 <= j < r.col_count() ==> #[trigger] r.col_elem_size(j) == components@[
                    soa_comp_ids@[j] as int
                ].size,
    {
        let mut comp_ids: Vec<u32> = Vec::new();
        let mut columns: Vec<ThinBlobVec> = Vec::new();
        let mut k: usize = 0;
        while k < soa_comp_ids.len()
            invariant
                k <= soa_comp_ids@.len(),
                comp_ids@ == soa_comp_ids@.subrange(0, k as int),
                columns@.len() == k,
                forall|i: int|
                    0 <= i < soa_comp_ids@.len() ==> #[trigger] soa_comp_ids@[i]
                        < components@.len(),
                forall|j: int|
                    0 <= j < k ==> {
                        &&& (#[trigger] columns@[j]).wf()
                        &&& columns@[j]@.len() == 0
                        &&& columns@[j].spec_elem_size() == components@[soa_comp_ids@[j] as int].size
                    },
            decreases soa_comp_ids@.len() - k,
        {
            let cid = soa_comp_ids.index(k);
            comp_ids.push(cid);
            columns.push(ThinBlobVec::new(components[cid as usize].size));
            proof {
                assert(comp_ids@ =~= soa_comp_ids@.subrange(0, (k + 1) as int));
            }
            k = k + 1;
        }
        proof {
            assert(soa_comp_ids@.subrange(0, soa_comp_ids@.len() as int) =~= soa_comp_ids@);
        }
        Self { archetype_id, comp_ids, columns, len: 0, cap: 0 }
    }

    /// Append one row: element `j` of `row` becomes the new last record of
    /// column `j`.
    pub fn insert(&mut self, row: &Vec<Vec<u8>>)
        requires
            old(self).wf(),
            row@.len() == old(self).col_count(),
            forall|j: int|
                0 <= j < row@.len() ==> (#[trigger] row@[j])@.len() == old(self).col_elem_size(j),
            old(self).spec_len() < usize::MAX,
        ensures
            final(self).wf(),
            final(self).spec_archetype_id() == old(self).spec_archetype_id(),
            final(self).spec_comp_ids() == old(self).spec_comp_ids(),
            final(self).spec_len() == old(self).spec_len() + 1,
            final(self).col_count() == old(self).col_count(),
            forall|j: int|
                0 <= j < old(self).col_count() ==> #[trigger] final(self).col(j) == old(
                    self,
                ).col(j).push(row@[j]@),
            forall|j: int|
                0 <= j < old(self).col_count() ==> #[trigger] final(self).col_elem_size(j) == old(
                    self,
                ).col_elem_size(j),
    {
        let ghost pre = *self;
        let mut j: usize = 0;
        while j < self.columns.len()
            invariant
                pre.wf(),
                row@.len() == pre.col_count(),
                forall|k: int|
                    0 <= k < row@.len() ==> (#[trigger] row@[k])@.len() == pre.col_elem_size(k),
                j <= self.columns@.len(),
                self.columns@.len() == pre.spec_col_count(),
                self.comp_ids@ == pre.spec_comp_ids(),
                self.len == pre.spec_len(),
                self.archetype_id == pre.archetype_id,
                self.cap == pre.cap,
                forall|k: int|
                    0 <= k < j ==> {
                        &&& (#[trigger] self.columns@[k])@ == pre.columns@[k]@.push(row@[k]@)
                        &&& self.columns@[k].spec_elem_size() == pre.columns@[k].spec_elem_size()
                        &&& self.columns@[k].wf()
                    },
                forall|k: int|
                    j <= k < self.columns@.len() ==> #[trigger] self.columns@[k] == pre.columns@[k],
            decreases self.columns@.len() - j,
        {
            let bytes = clone_bytes(&row[j]);
            proof {
                assert(pre.columns@[j as int].wf());
                assert(row@[j as int]@.len() == pre.col_elem_size(j as int));
            }
            let mut col = ThinBlobVec::new(0);
            core::mem::swap(&mut self.columns[j], &mut col);
            col.push_untyped(bytes);
            core::mem::swap(&mut self.columns[j], &mut col);
            j = j + 1;
        }
        self.update_capacity();
        self.len = self.len + 1;
        proof {
            assert forall|k: int| 0 <= k < old(self).col_count() implies {
                &&& #[trigger] final(self).col(k) == old(self).col(k).push(row@[k]@)
                &&& final(self).col_elem_size(k) == old(self).col_elem_size(k)
            } by {
                assert(self.columns@[k]@ == pre.columns@[k]@.push(row@[k]@));
            }
        }
    }

    /// Doubling capacity schedule, starting at 4.
    fn update_capacity(&mut self)
        ensures
            final(self).columns@ == old(self).columns@,
            final(self).comp_ids@ == old(self).comp_ids@,
            final(self).len == old(self).len,
            final(self).archetype_id == old(self).archetype_id,
    {
        if self.cap == 0 {
            self.cap = 4;
        } else if self.len >= self.cap {
            if self.cap <= usize::MAX / 2 {
                self.cap = self.cap * 2;
            }
        }
    }

    /// Read the record of column `j` at row `row_id`.
    pub fn get(&self, j: usize, row_id: usize) -> (r: &Vec<u8>)
        requires
            self.wf(),
            j < self.col_count(),
            row_id < self.spec_len(),
        ensures
            r@ == self.col(j as int)[row_id as int],
    {
        self.columns[j].get_untyped(row_id)
    }

    /// Overwrite the record of column `j` at row `row_id`.
    pub fn set(&mut self, j: usize, row_id: usize, bytes: Vec<u8>)
        requires
            old(self).wf(),
            j < old(self).col_count(),
            row_id < old(self).spec_len(),
            bytes@.len() == old(self).col_elem_size(j as int),
        ensures
            final(self).wf(),
            final(self).spec_archetype_id() == old(self).spec_archetype_id(),
            final(self).spec_comp_ids() == old(self).spec_comp_ids(),
            final(self).spec_len() == old(self).spec_len(),
            final(self).col_count() == old(self).col_count(),
            final(self).col(j as int) == old(self).col(j as int).update(row_id as int, bytes@),
            forall|k: int|
                0 <= k < old(self).col_count() && k != j ==> #[trigger] final(self).col(k) == old(
                    self,
                ).col(k),
            forall|k: int|
                0 <= k < old(self).col_count() ==> #[trigger] final(self).col_elem_size(k) == old(
                    self,
                ).col_elem_size(k),
    {
        let mut col = ThinBlobVec::new(0);
        core::mem::swap(&mut self.columns[j], &mut col);
        col.set_untyped(row_id, bytes);
        core::mem::swap(&mut self.columns[j], &mut col);
        proof {
            assert(final(self).columns@ =~= old(self).columns@.update(
                j as int,
                final(self).columns@[j as int],
            ));
        }
    }

    /// Swap-remove row `row_id` from every column; a no-op when the row id
    /// is out of range (such a row was already compacted away).
    pub fn remove(&mut self, row_id: usize)
        requires
            old(self).wf(),
        ensures
            final(self).wf(),
            final(self).spec_archetype_id() == old(self).spec_archetype_id(),
            final(self).spec_comp_ids() == old(self).spec_comp_ids(),
            final(self).col_count() == old(self).col_count(),
            if row_id < old(self).spec_len() {
                &&& final(self).spec_len() == old(self).spec_len() - 1
                &&& forall|j: int|
                    0 <= j < old(self).col_count() ==> #[trigger] final(self).col(j) == old(
                        self,
                    ).col(j).update(row_id as int, old(self).col(j).last()).drop_last()
            } else {
                *final(self) == *old(self)
            },
            forall|j: int|
                0 <= j < old(self).col_count() ==> #[trigger] final(self).col_elem_size(j) == old(
                    self,
                ).col_elem_size(j),
    {
        if row_id >= self.len {
            return ;
        }
        let ghost pre = *self;
        let mut j: usize = 0;
        while j < self.columns.len()
            invariant
                pre.wf(),
                row_id < pre.spec_len(),
                j <= self.columns@.len(),
                self.columns@.len() == pre.spec_col_count(),
                self.comp_ids@ == pre.spec_comp_ids(),
                self.len == pre.spec_len(),
                self.archetype_id == pre.archetype_id,
                self.cap == pre.cap,
                forall|k: int|
                    0 <= k < j ==> {
                        &&& (#[trigger] self.columns@[k])@ == pre.columns@[k]@.update(
                            row_id as int,
                            pre.columns@[k]@.last(),
                        ).drop_last()
                        &&& self.columns@[k].spec_elem_size() == pre.columns@[k].spec_elem_size()
                        &&& self.columns@[k].wf()
                    },
                forall|k: int|
                    j <= k < self.columns@.len() ==> #[trigger] self.columns@[k] == pre.columns@[k],
            decreases self.columns@.len() - j,
        {
            proof {
                assert(pre.columns@[j as int].wf());
            }
            let mut col = ThinBlobVec::new(0);
            core::mem::swap(&mut self.columns[j], &mut col);
            col.remove_and_replace_with_last(row_id);
            core::mem::swap(&mut self.columns[j], &mut col);
            j = j + 1;
        }
        self.len = self.len - 1;
        proof {
            assert forall|k: int| 0 <= k < old(self).col_count() implies {
                &&& #[trigger] final(self).col(k) == old(self).col(k).update(
                    row_id as int,
                    old(self).col(k).last(),
                ).drop_last()
                &&& final(self).col_elem_size(k) == old(self).col_elem_size(k)
            } by {
                assert(self.columns@[k]@ == pre.columns@[k]@.update(
                    row_id as int,
                    pre.columns@[k]@.last(),
                ).drop_last());
            }
        }
    }

    pub fn len(&self) -> (r: usize)
        ensures
            r == self.spec_len(),
    {
        self.len
    }

    /// What `wf` guarantees about one column, stated publicly: the column
    /// has one record per row, each record one element worth of bytes.
    pub proof fn lemma_wf_col(self, j: int)
        requires
            self.wf(),
            0 <= j < self.col_count(),
        ensures
            self.col(j).len() == self.spec_len(),
            forall|i: int|
                0 <= i < self.col(j).len() ==> (#[trigger] self.col(j)[i]).len()
                    == self.col_elem_size(j),
    {
        assert(self.columns@[j].wf());
        assert forall|i: int| 0 <= i < self.col(j).len() implies (#[trigger] self.col(j)[i]).len()
            == self.col_elem_size(j) by {
            assert(self.columns@[j]@[i].len() == self.columns@[j].spec_elem_size());
        }
    }

    /// `lemma_wf_col` for every column at once.
    pub proof fn lemma_wf_col_all(self)
        requires
            self.wf(),
        ensures
            forall|j: int|
                0 <= j < self.col_count() ==> #[trigger] self.col(j).len() == self.spec_len(),
    {
        assert forall|j: int|
            0 <= j < self.col_count() implies #[trigger] self.col(j).len() == self.spec_len() by {
            self.lemma_wf_col(j);
        }
    }

    /// Position of component `cid` among this table's columns.
    pub fn col_index_of(&self, cid: u32) -> (r: Option<usize>)
        ensures
            match r {
                Some(j) => j < self.col_count() && self.spec_comp_ids()[j as int] == cid,
                None => !self.spec_comp_ids().contains(cid),
            },
    {
        let mut j: usize = 0;
        while j < self.comp_ids.len()
            invariant
                j <= self.comp_ids@.len(),
                forall|k: int| 0 <= k < j ==> self.comp_ids@[k] != cid,
            decreases self.comp_ids@.len() - j,
        {
            if self.comp_ids[j] == cid {
                return Some(j);
            }
            j = j + 1;
        }
        None
    }
}

} // verus!
