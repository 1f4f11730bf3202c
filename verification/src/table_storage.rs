//! One archetype's complete storage: a columnar table, a packed-row table,
//! and the list of owning entity keys, all three always the same length and
//! mutated in lockstep, so logical row `i` means the same entity in each.
//! Removal is swap-remove: the caller learns which entity's row moved so it
//! can repair that entity's stored row id.

use vstd::prelude::*;
use crate::component::{ArchetypeId, ComponentInfo};
use crate::entity::EntityKey;
use crate::error::EcsError;
use crate::sorted_vec::{no_duplicates, seq_index_of, lemma_seq_index_of_unique, SortedVec};
use crate::table_aos::TableAoS;
use crate::table_soa::TableSoA;

verus! {

pub struct TableStorage {
    entities: Vec<EntityKey>,
    table_soa: TableSoA,
    table_aos: TableAoS,
    len: u32,
}

impl TableStorage {
    pub closed spec fn spec_entities(self) -> Seq<EntityKey> {
        self.entities@
    }

    pub closed spec fn spec_len(self) -> u32 {
        self.len
    }

    pub closed spec fn soa(self) -> TableSoA {
        self.table_soa
    }

    pub closed spec fn aos(self) -> TableAoS {
        self.table_aos
    }

    /// The component ids stored columnar, ascending.
    pub open spec fn soa_ids(self) -> Seq<u32> {
        self.soa().spec_comp_ids()
    }

    /// The component ids stored packed, ascending.
    pub open spec fn aos_ids(self) -> Seq<u32> {
        self.aos().metas().map_values(|m: crate::table_aos::TypeMetaData| m.comp_id.0)
    }

    pub open spec fn wf(self) -> bool {
        &&& self.soa().wf()
        &&& self.aos().wf()
        &&& self.spec_entities().len() == self.spec_len()
        &&& self.soa().spec_len() == self.spec_len()
        &&& self.aos().spec_len() == self.spec_len()
        &&& no_duplicates(self.soa_ids())
        &&& no_duplicates(self.aos_ids())
    }

    /// The bytes of component `cid` in row `row`: the whole column record
    /// when the component is columnar, the component's slice of the packed
    /// row when it is packed, `None` when the archetype lacks it.
    pub open spec fn spec_comp_bytes(self, cid: u32, row: int) -> Option<Seq<u8>> {
        if self.soa_ids().contains(cid) {
            Some(self.soa().col(seq_index_of(self.soa_ids(), cid))[row])
        } else if self.aos_ids().contains(cid) {
            let m = self.aos().metas()[seq_index_of(self.aos_ids(), cid)];
            Some(self.aos().rows()[row].subrange(m.ptr_offset as int, m.ptr_offset + m.size))
        } else {
            None
        }
    }

    pub fn new(
        archetype_id: ArchetypeId,
        components: &Vec<ComponentInfo>,
        soa_comp_ids: &SortedVec,
        aos_comp_ids: &SortedVec,
    ) -> (r: Result<Self, EcsError>)
        requires
            soa_comp_ids.wf(),
            aos_comp_ids.wf(),
            no_duplicates(soa_comp_ids@),
            no_duplicates(aos_comp_ids@),
            forall|i: int|
                0 <= i < soa_comp_ids@.len() ==> #[trigger] soa_comp_ids@[i] < components@.len(),
            forall|i: int|
                0 <= i < aos_comp_ids@.len() ==> #[trigger] aos_comp_ids@[i] < components@.len(),
            forall|i: int| 0 <= i < components@.len() ==> (#[trigger] components@[i]).wf(),
        ensures
            match r {
                Ok(t) => {
                    &&& t.wf()
                    &&& t.spec_len() == 0
                    &&& t.soa_ids() == soa_comp_ids@
                    &&& t.aos_ids() == aos_comp_ids@
                    &&& forall|j: int|
                        0 <= j < soa_comp_ids@.len() ==> #[trigger] t.soa().col_elem_size(j)
                            == components@[soa_comp_ids@[j] as int].size
                    &&& forall|j: int|
                        0 <= j < aos_comp_ids@.len() ==> (#[trigger] t.aos().metas()[j]).size
                            == components@[aos_comp_ids@[j] as int].size
                },
                Err(e) => e == EcsError::LayoutOverflow,
            },
            aos_comp_ids@.len() * (crate::component::MAX_COMPONENT_SIZE
                + crate::component::MAX_COMPONENT_ALIGN) + crate::component::MAX_COMPONENT_ALIGN
                <= usize::MAX ==> r is Ok,
    {
        let table_soa = TableSoA::new(archetype_id, components, soa_comp_ids);
        let table_aos = match TableAoS::new(archetype_id, components, aos_comp_ids) {
            Ok(t) => t,
            Err(e) => {
                return Err(e);
            },
        };
        let r = Self { entities: Vec::new(), table_soa, table_aos, len: 0 };
        proof {
            assert(r.aos_ids() =~= aos_comp_ids@);
        }
        Ok(r)
    }

    /// Append one row for `entity`: `soa_row[j]` is the record for the
    /// `j`-th columnar component, `aos_values[j]` for the `j`-th packed
    /// placement.  Returns the new row id.
    pub fn insert(&mut self, entity: EntityKey, soa_row: &Vec<Vec<u8>>, aos_values: &Vec<Vec<u8>>)
        -> (row_id: u32)
        requires
            old(self).wf(),
            old(self).spec_len() < u32::MAX,
            soa_row@.len() == old(self).soa().col_count(),
            forall|j: int|
                0 <= j < soa_row@.len() ==> (#[trigger] soa_row@[j])@.len() == old(
                    self,
                ).soa().col_elem_size(j),
            aos_values@.len() == old(self).aos().meta_count(),
            forall|j: int|
                0 <= j < aos_values@.len() ==> (#[trigger] aos_values@[j])@.len() == old(
                    self,
                ).aos().metas()[j].size,
        ensures
            final(self).wf(),
            row_id == old(self).spec_len(),
            final(self).spec_len() == old(self).spec_len() + 1,
            final(self).soa_ids() == old(self).soa_ids(),
            final(self).aos_ids() == old(self).aos_ids(),
            final(self).aos().metas() == old(self).aos().metas(),
            forall|j: int|
                0 <= j < old(self).soa().col_count() ==> #[trigger] final(self).soa().col_elem_size(
                    j,
                ) == old(self).soa().col_elem_size(j),
            final(self).spec_entities() == old(self).spec_entities().push(entity),
            // existing rows keep their bytes
            forall|j: int|
                0 <= j < old(self).soa().col_count() ==> #[trigger] final(self).soa().col(j) == old(
                    self,
                ).soa().col(j).push(soa_row@[j]@),
            forall|i: int|
                0 <= i < old(self).aos().rows().len() ==> #[trigger] final(self).aos().rows()[i]
                    == old(self).aos().rows()[i],
            // the new row holds exactly the given bytes
            forall|j: int|
                0 <= j < old(self).aos().meta_count() ==> #[trigger] final(self).aos().rows().last().subrange(
                    old(self).aos().metas()[j].ptr_offset as int,
                    old(self).aos().metas()[j].ptr_offset + old(self).aos().metas()[j].size,
                ) == aos_values@[j]@,
    {
        let row_id = self.len;
        self.table_soa.insert(soa_row);
        self.table_aos.insert(aos_values);
        self.entities.push(entity);
        self.len = self.len + 1;
        row_id
    }

    /// Swap-remove the row of `entity`.  Returns the key of the entity
    /// whose row moved into the hole together with its new row id, or
    /// `None` when the removed row was the last (or already out of range,
    /// which is tolerated as an already-compacted row).
    pub fn remove_entity(&mut self, entity: crate::entity::Entity) -> (r: Option<(EntityKey, u32)>)
        requires
            old(self).wf(),
        ensures
            final(self).wf(),
            final(self).soa_ids() == old(self).soa_ids(),
            final(self).aos_ids() == old(self).aos_ids(),
            final(self).aos().metas() == old(self).aos().metas(),
            forall|j: int|
                0 <= j < old(self).soa().col_count() ==> #[trigger] final(self).soa().col_elem_size(
                    j,
                ) == old(self).soa().col_elem_size(j),
            entity.row_id >= old(self).spec_len() ==> *final(self) == *old(self) && r is None,
            entity.row_id < old(self).spec_len() ==> {
                &&& final(self).spec_len() == old(self).spec_len() - 1
                &&& final(self).spec_entities() == old(self).spec_entities().update(
                    entity.row_id as int,
                    old(self).spec_entities().last(),
                ).drop_last()
                &&& forall|j: int|
                    0 <= j < old(self).soa().col_count() ==> #[trigger] final(self).soa().col(j)
                        == old(self).soa().col(j).update(
                        entity.row_id as int,
                        old(self).soa().col(j).last(),
                    ).drop_last()
                &&& final(self).aos().rows() == old(self).aos().rows().update(
                    entity.row_id as int,
                    old(self).aos().rows().last(),
                ).drop_last()
                &&& if entity.row_id + 1 == old(self).spec_len() {
                    r is None
                } else {
                    r == Some((old(self).spec_entities().last(), entity.row_id))
                }
            },
    {
        if entity.row_id >= self.len {
            return None;
        }
        let row = entity.row_id as usize;
        let moved_key = self.entities[self.entities.len() - 1];
        let _ = self.entities.swap_remove(row);
        self.table_soa.remove(row);
        self.table_aos.remove(row);
        self.len = self.len - 1;
        if entity.row_id == self.len {
            None
        } else {
            Some((moved_key, entity.row_id))
        }
    }

    /// The key of the entity owning row `row`.
    pub fn entity_at(&self, row: u32) -> (r: EntityKey)
        requires
            self.wf(),
            row < self.spec_len(),
        ensures
            r == self.spec_entities()[row as int],
    {
        self.entities[row as usize]
    }

    pub fn len(&self) -> (r: u32)
        ensures
            r == self.spec_len(),
    {
        self.len
    }

    /// Copy out the bytes of component `cid` in row `row`, whichever table
    /// holds it.
    pub fn get_comp_bytes(&self, cid: u32, row: u32) -> (r: Option<Vec<u8>>)
        requires
            self.wf(),
            row < self.spec_len(),
        ensures
            match r {
                Some(b) => self.spec_comp_bytes(cid, row as int) == Some(b@),
                None => self.spec_comp_bytes(cid, row as int) is None,
            },
    {
        if let Some(j) = self.table_soa.col_index_of(cid) {
            proof {
                assert(self.soa_ids()[j as int] == cid);
                assert(self.soa_ids().contains(cid));
                lemma_seq_index_of_unique(self.soa_ids(), cid, j as int);
            }
            let b = self.table_soa.get(j, row as usize);
            return Some(crate::thin_blob_vec::clone_bytes(b));
        }
        proof {
            assert(!self.soa_ids().contains(cid));
        }
        if let Some(j) = self.table_aos.meta_index_of(cid) {
            proof {
                assert(self.aos_ids()[j as int] == cid);
                assert(self.aos_ids().contains(cid));
                lemma_seq_index_of_unique(self.aos_ids(), cid, j as int);
            }
            let b = self.table_aos.get_comp_bytes(j, row as usize);
            return Some(b);
        }
        proof {
            assert forall|j: int| 0 <= j < self.aos_ids().len() implies self.aos_ids()[j]
                != cid by {
                assert(self.aos().metas()[j].comp_id != crate::component::ComponentId(cid));
            }
            assert(!self.aos_ids().contains(cid));
        }
        None
    }

    /// Overwrite the bytes of component `cid` in row `row`.  Returns false,
    /// changing nothing, when the archetype lacks the component or the
    /// bytes have the wrong length.
    pub fn set_comp_bytes(&mut self, cid: u32, row: u32, bytes: &Vec<u8>) -> (ok: bool)
        requires
            old(self).wf(),
            row < old(self).spec_len(),
        ensures
            final(self).wf(),
            final(self).spec_len() == old(self).spec_len(),
            final(self).spec_entities() == old(self).spec_entities(),
            final(self).soa_ids() == old(self).soa_ids(),
            final(self).aos_ids() == old(self).aos_ids(),
            final(self).aos().metas() == old(self).aos().metas(),
            forall|j: int|
                0 <= j < old(self).soa().col_count() ==> #[trigger] final(self).soa().col_elem_size(
                    j,
                ) == old(self).soa().col_elem_size(j),
            !ok ==> *final(self) == *old(self),
            ok ==> {
                &&& old(self).spec_comp_bytes(cid, row as int) is Some
                &&& final(self).spec_comp_bytes(cid, row as int) == Some(bytes@)
                // every other component of every row is untouched
                &&& forall|c2: u32, i: int|
                    0 <= i < old(self).spec_len() && (c2 != cid || i != row)
                        ==> #[trigger] final(self).spec_comp_bytes(c2, i) == old(
                        self,
                    ).spec_comp_bytes(c2, i)
            },
            ok <==> (old(self).spec_comp_bytes(cid, row as int) matches Some(b) && b.len()
                == bytes@.len()),
    {
        let ghost pre = *self;
        if let Some(j) = self.table_soa.col_index_of(cid) {
            proof {
                assert(self.soa_ids()[j as int] == cid);
                assert(self.soa_ids().contains(cid));
                lemma_seq_index_of_unique(self.soa_ids(), cid, j as int);
            }
            proof {
                self.table_soa.lemma_wf_col(j as int);
            }
            if bytes.len() != self.table_soa.get(j, row as usize).len() {
                return false;
            }
            let b = crate::thin_blob_vec::clone_bytes(bytes);
            self.table_soa.set(j, row as usize, b);
            proof {
                lemma_set_soa_frame(pre, *self, cid, row as int, j as int, bytes@);
            }
            return true;
        }
        proof {
            assert(!self.soa_ids().contains(cid));
        }
        if let Some(j) = self.table_aos.meta_index_of(cid) {
            proof {
                assert(self.aos_ids()[j as int] == cid);
                assert(self.aos_ids().contains(cid));
                lemma_seq_index_of_unique(self.aos_ids(), cid, j as int);
            }
            proof {
                self.table_aos.lemma_wf_layout();
            }
            let m_size = self.table_aos.get_comp_bytes(j, row as usize).len();
            if bytes.len() != m_size {
                return false;
            }
            self.table_aos.set_comp_bytes(j, row as usize, bytes);
            proof {
                lemma_set_aos_frame(pre, *self, cid, row as int, j as int, bytes@);
            }
            return true;
        }
        proof {
            assert forall|j: int| 0 <= j < self.aos_ids().len() implies self.aos_ids()[j]
                != cid by {
                assert(self.aos().metas()[j].comp_id != crate::component::ComponentId(cid));
            }
            assert(!self.aos_ids().contains(cid));
        }
        false
    }
}

/// The hypotheses the two compaction lemmas share: `post` is `pre` with
/// row `r` swap-removed (the last row moved into the hole).
pub open spec fn is_swap_removed(pre: TableStorage, post: TableStorage, r: int, last: int) -> bool {
    &&& pre.wf()
    &&& post.wf()
    &&& 0 <= r <= last
    &&& last == pre.spec_len() - 1
    &&& post.soa_ids() == pre.soa_ids()
    &&& post.aos_ids() == pre.aos_ids()
    &&& post.aos().metas() == pre.aos().metas()
    &&& post.spec_len() == pre.spec_len() - 1
    &&& forall|j: int|
        0 <= j < pre.soa().col_count() ==> #[trigger] post.soa().col(j) == pre.soa().col(
            j,
        ).update(r, pre.soa().col(j).last()).drop_last()
    &&& post.aos().rows() == pre.aos().rows().update(r, pre.aos().rows().last()).drop_last()
}

/// After swap-removing row `r`, the moved entity's components read at its
/// new row `r` exactly as they read at the old last row.
pub proof fn lemma_comp_bytes_swap_moved(
    pre: TableStorage,
    post: TableStorage,
    c: u32,
    r: int,
    last: int,
)
    requires
        is_swap_removed(pre, post, r, last),
        r < last,
    ensures
        post.spec_comp_bytes(c, r) == pre.spec_comp_bytes(c, last),
{
    pre.soa().lemma_wf_col_all();
    pre.aos().lemma_wf_layout();
    if pre.soa_ids().contains(c) {
        let j = seq_index_of(pre.soa_ids(), c);
        assert(0 <= j < pre.soa_ids().len() && pre.soa_ids()[j] == c) by {
            assert(exists|jj: int| 0 <= jj < pre.soa_ids().len() && pre.soa_ids()[jj] == c);
        }
        assert(pre.soa().col(j).len() == pre.spec_len());
        assert(post.soa().col(j)[r] == pre.soa().col(j).last());
        assert(pre.soa().col(j).last() == pre.soa().col(j)[last]);
    } else if pre.aos_ids().contains(c) {
        assert(post.aos().rows()[r] == pre.aos().rows().last());
        assert(pre.aos().rows().last() == pre.aos().rows()[last]);
    }
}

/// After swap-removing row `r`, every row other than `r` and the old last
/// row reads back unchanged.
pub proof fn lemma_comp_bytes_swap_other(
    pre: TableStorage,
    post: TableStorage,
    c: u32,
    r: int,
    last: int,
    r2: int,
)
    requires
        is_swap_removed(pre, post, r, last),
        0 <= r2 < pre.spec_len(),
        r2 != r,
        r2 != last,
    ensures
        post.spec_comp_bytes(c, r2) == pre.spec_comp_bytes(c, r2),
{
    pre.soa().lemma_wf_col_all();
    pre.aos().lemma_wf_layout();
    if pre.soa_ids().contains(c) {
        let j = seq_index_of(pre.soa_ids(), c);
        assert(0 <= j < pre.soa_ids().len() && pre.soa_ids()[j] == c) by {
            assert(exists|jj: int| 0 <= jj < pre.soa_ids().len() && pre.soa_ids()[jj] == c);
        }
        assert(pre.soa().col(j).len() == pre.spec_len());
        assert(post.soa().col(j)[r2] == pre.soa().col(j)[r2]);
    } else if pre.aos_ids().contains(c) {
        assert(post.aos().rows()[r2] == pre.aos().rows()[r2]);
    }
}

/// When a row's records read the same in both tables and the layouts
/// agree, every component of that row reads the same.
pub proof fn lemma_comp_bytes_rows_same(pre: TableStorage, post: TableStorage, r2: int)
    requires
        post.soa_ids() == pre.soa_ids(),
        post.aos_ids() == pre.aos_ids(),
        post.aos().metas() == pre.aos().metas(),
        forall|j: int|
            0 <= j < pre.soa_ids().len() ==> #[trigger] post.soa().col(j)[r2] == pre.soa().col(
                j,
            )[r2],
        post.aos().rows()[r2] == pre.aos().rows()[r2],
    ensures
        forall|c: u32| #[trigger] post.spec_comp_bytes(c, r2) == pre.spec_comp_bytes(c, r2),
{
    assert forall|c: u32| #[trigger] post.spec_comp_bytes(c, r2) == pre.spec_comp_bytes(
        c,
        r2,
    ) by {
        if pre.soa_ids().contains(c) {
            let j = seq_index_of(pre.soa_ids(), c);
            assert(0 <= j < pre.soa_ids().len() && pre.soa_ids()[j] == c) by {
                assert(exists|jj: int| 0 <= jj < pre.soa_ids().len() && pre.soa_ids()[jj] == c);
            }
            assert(post.soa().col(j)[r2] == pre.soa().col(j)[r2]);
        }
    }
}

/// After overwriting one columnar record, every other component and row
/// reads back unchanged.
proof fn lemma_set_soa_frame(
    pre: TableStorage,
    post: TableStorage,
    cid: u32,
    row: int,
    j: int,
    bytes: Seq<u8>,
)
    requires
        pre.wf(),
        post.wf(),
        0 <= row < pre.spec_len(),
        0 <= j < pre.soa_ids().len(),
        pre.soa_ids()[j] == cid,
        post.soa_ids() == pre.soa_ids(),
        post.aos_ids() == pre.aos_ids(),
        post.aos() == pre.aos(),
        post.spec_len() == pre.spec_len(),
        post.soa().col(j) == pre.soa().col(j).update(row, bytes),
        forall|k: int|
            0 <= k < pre.soa().col_count() && k != j ==> #[trigger] post.soa().col(k)
                == pre.soa().col(k),
    ensures
        post.spec_comp_bytes(cid, row) == Some(bytes),
        forall|c2: u32, i: int|
            0 <= i < pre.spec_len() && (c2 != cid || i != row) ==> #[trigger] post.spec_comp_bytes(
                c2,
                i,
            ) == pre.spec_comp_bytes(c2, i),
{
    lemma_seq_index_of_unique(pre.soa_ids(), cid, j);
    assert(pre.soa_ids().contains(cid)) by {
        assert(pre.soa_ids()[j] == cid);
    }
    pre.soa().lemma_wf_col(j);
    assert forall|c2: u32, i: int|
        0 <= i < pre.spec_len() && (c2 != cid || i != row) implies #[trigger] post.spec_comp_bytes(
        c2,
        i,
    ) == pre.spec_comp_bytes(c2, i) by {
        if pre.soa_ids().contains(c2) {
            let j2 = seq_index_of(pre.soa_ids(), c2);
            assert(0 <= j2 < pre.soa_ids().len() && pre.soa_ids()[j2] == c2) by {
                assert(exists|jj: int| 0 <= jj < pre.soa_ids().len() && pre.soa_ids()[jj] == c2);
            }
            if c2 == cid {
                assert(j2 == j);
                assert(i != row);
                assert(post.soa().col(j2)[i] == pre.soa().col(j2)[i]);
            } else {
                assert(j2 != j);
                assert(post.soa().col(j2) == pre.soa().col(j2));
            }
        }
    }
}

/// After overwriting one packed component of one row, every other component
/// and row reads back unchanged: the placements do not overlap.
proof fn lemma_set_aos_frame(
    pre: TableStorage,
    post: TableStorage,
    cid: u32,
    row: int,
    j: int,
    bytes: Seq<u8>,
)
    requires
        pre.wf(),
        post.wf(),
        0 <= row < pre.spec_len(),
        0 <= j < pre.aos_ids().len(),
        pre.aos_ids()[j] == cid,
        !pre.soa_ids().contains(cid),
        post.soa_ids() == pre.soa_ids(),
        post.aos_ids() == pre.aos_ids(),
        post.soa() == pre.soa(),
        post.aos().metas() == pre.aos().metas(),
        post.spec_len() == pre.spec_len(),
        post.aos().rows().len() == pre.aos().rows().len(),
        forall|i: int|
            0 <= i < pre.aos().rows().len() && i != row ==> #[trigger] post.aos().rows()[i]
                == pre.aos().rows()[i],
        post.aos().rows()[row].len() == pre.aos().rows()[row].len(),
        post.aos().rows()[row].subrange(
            pre.aos().metas()[j].ptr_offset as int,
            pre.aos().metas()[j].ptr_offset + pre.aos().metas()[j].size,
        ) == bytes,
        forall|i: int|
            0 <= i < pre.aos().rows()[row].len() && !(pre.aos().metas()[j].ptr_offset <= i
                < pre.aos().metas()[j].ptr_offset + pre.aos().metas()[j].size)
                ==> #[trigger] post.aos().rows()[row][i] == pre.aos().rows()[row][i],
    ensures
        post.spec_comp_bytes(cid, row) == Some(bytes),
        forall|c2: u32, i: int|
            0 <= i < pre.spec_len() && (c2 != cid || i != row) ==> #[trigger] post.spec_comp_bytes(
                c2,
                i,
            ) == pre.spec_comp_bytes(c2, i),
{
    lemma_seq_index_of_unique(pre.aos_ids(), cid, j);
    assert(pre.aos_ids().contains(cid)) by {
        assert(pre.aos_ids()[j] == cid);
    }
    pre.aos().lemma_wf_layout();
    post.aos().lemma_wf_layout();
    assert forall|c2: u32, i: int|
        0 <= i < pre.spec_len() && (c2 != cid || i != row) implies #[trigger] post.spec_comp_bytes(
        c2,
        i,
    ) == pre.spec_comp_bytes(c2, i) by {
        if !pre.soa_ids().contains(c2) && pre.aos_ids().contains(c2) {
            let j2 = seq_index_of(pre.aos_ids(), c2);
            assert(0 <= j2 < pre.aos_ids().len() && pre.aos_ids()[j2] == c2) by {
                assert(exists|jj: int|
                    0 <= jj < pre.aos_ids().len() && pre.aos_ids()[jj] == c2);
            }
            let m2 = pre.aos().metas()[j2];
            if i != row {
                assert(post.aos().rows()[i] == pre.aos().rows()[i]);
            } else {
                // c2 != cid: the two placements are disjoint byte ranges
                assert(c2 != cid);
                assert(j2 != j);
                let m = pre.aos().metas()[j];
                assert(j2 < j ==> m2.ptr_offset + m2.size <= m.ptr_offset);
                assert(j < j2 ==> m.ptr_offset + m.size <= m2.ptr_offset);
                assert(post.aos().rows()[row].subrange(
                    m2.ptr_offset as int,
                    m2.ptr_offset + m2.size,
                ) =~= pre.aos().rows()[row].subrange(m2.ptr_offset as int, m2.ptr_offset + m2.size));
            }
        }
    }
}

} // verus!
