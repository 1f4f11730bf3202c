//! Packed-row (array-of-structures) storage for one archetype: every row is
//! one fixed-size byte record holding all packed components side by side,
//! at offsets computed once when the table is created, the way a compiler
//! lays out a struct: each field at the next offset aligned to it, the row
//! padded to the largest alignment.

use vstd::prelude::*;
use crate::component::{
    ArchetypeId, ComponentId, ComponentInfo, MAX_COMPONENT_ALIGN, MAX_COMPONENT_SIZE,
};
use crate::error::EcsError;
use crate::sorted_vec::{no_duplicates, SortedVec};
use crate::thin_blob_vec::ThinBlobVec;

verus! {

/// Where one component lives inside a packed row.
#[derive(Clone, Copy, Debug)]
pub struct TypeMetaData {
    pub comp_id: ComponentId,
    pub ptr_offset: usize,
    pub size: usize,
}

/// `x` rounded up to the next multiple of `a`.
pub open spec fn spec_round_up(x: int, a: int) -> int {
    if x % a == 0 {
        x
    } else {
        x + a - x % a
    }
}

/// Round up, or `None` when the result does not fit in `usize`.
fn round_up(x: usize, a: usize) -> (r: Option<usize>)
    requires
        a >= 1,
    ensures
        match r {
            Some(v) => v == spec_round_up(x as int, a as int) && x <= v < x + a,
            None => x + a > usize::MAX,
        },
{
    let rem = x % a;
    if rem == 0 {
        Some(x)
    } else {
        x.checked_add(a - rem)
    }
}

pub struct TableAoS {
    archetype_id: ArchetypeId,
    vec: ThinBlobVec,
    cap: usize,
    len: usize,
    metas: Vec<TypeMetaData>,
}

impl TableAoS {
    pub closed spec fn spec_archetype_id(self) -> ArchetypeId {
        self.archetype_id
    }

    /// The rows, each one packed byte record.
    pub closed spec fn rows(self) -> Seq<Seq<u8>> {
        self.vec@
    }

    pub closed spec fn spec_len(self) -> usize {
        self.len
    }

    /// The packed components' placements, in ascending component-id order.
    pub closed spec fn metas(self) -> Seq<TypeMetaData> {
        self.metas@
    }

    /// Size in bytes of one packed row.
    pub closed spec fn row_size(self) -> usize {
        self.vec.spec_elem_size()
    }

    pub open spec fn meta_count(self) -> nat {
        self.metas().len()
    }

    /// Placements lie inside the row, in ascending component-id order, and
    /// do not overlap.
    pub closed spec fn wf(self) -> bool {
        &&& self.vec.wf()
        &&& self.vec@.len() == self.len
        &&& forall|j: int|
            0 <= j < self.metas@.len() ==> (#[trigger] self.metas@[j]).ptr_offset
                + self.metas@[j].size <= self.vec.spec_elem_size()
        &&& forall|j1: int, j2: int|
            0 <= j1 < j2 < self.metas@.len() ==> #[trigger] self.metas@[j1].ptr_offset
                + self.metas@[j1].size <= #[trigger] self.metas@[j2].ptr_offset
        &&& forall|j1: int, j2: int|
            0 <= j1 < j2 < self.metas@.len() ==> (#[trigger] self.metas@[j1]).comp_id.0 < (
            #[trigger] self.metas@[j2]).comp_id.0
    }

    /// Create the table for an archetype, computing each packed component's
    /// offset.  Fails only when the row would not fit in the address space;
    /// with every component's layout inside the engine's limits, a bounded
    /// number of components is always accepted.
    pub fn new(archetype_id: ArchetypeId, components: &Vec<ComponentInfo>, aos_comp_ids: &SortedVec)
        -> (r: Result<Self, EcsError>)
        requires
            aos_comp_ids.wf(),
            no_duplicates(aos_comp_ids@),
            forall|i: int|
                0 <= i < aos_comp_ids@.len() ==> #[trigger] aos_comp_ids@[i] < components@.len(),
            forall|i: int| 0 <= i < components@.len() ==> (#[trigger] components@[i]).wf(),
        ensures
            match r {
                Ok(t) => {
                    &&& t.wf()
                    &&& t.spec_archetype_id() == archetype_id
                    &&& t.spec_len() == 0
                    &&& t.meta_count() == aos_comp_ids@.len()
                    &&& forall|j: int|
                        0 <= j < t.meta_count() ==> {
                            &&& (#[trigger] t.metas()[j]).comp_id == ComponentId(aos_comp_ids@[j])
                            &&& t.metas()[j].size == components@[aos_comp_ids@[j] as int].size
                        }
                },
                Err(e) => e == EcsError::LayoutOverflow,
            },
            aos_comp_ids@.len() * (MAX_COMPONENT_SIZE + MAX_COMPONENT_ALIGN) + MAX_COMPONENT_ALIGN
                <= usize::MAX ==> r is Ok,
    {
        let n = aos_comp_ids.len();
        let mut metas: Vec<TypeMetaData> = Vec::new();
        let mut cur_size: usize = 0;
        let mut max_align: usize = 1;
        let mut k: usize = 0;
        while k < n
            invariant
                aos_comp_ids.wf(),
                no_duplicates(aos_comp_ids@),
                n == aos_comp_ids@.len(),
                forall|i: int|
                    0 <= i < aos_comp_ids@.len() ==> #[trigger] aos_comp_ids@[i]
                        < components@.len(),
                forall|i: int| 0 <= i < components@.len() ==> (#[trigger] components@[i]).wf(),
                k <= n,
                metas@.len() == k,
                1 <= max_align <= MAX_COMPONENT_ALIGN,
                cur_size <= k * (MAX_COMPONENT_SIZE + MAX_COMPONENT_ALIGN),
                forall|j: int|
                    0 <= j < k ==> {
                        &&& (#[trigger] metas@[j]).comp_id == ComponentId(aos_comp_ids@[j])
                        &&& metas@[j].size == components@[aos_comp_ids@[j] as int].size
                        &&& metas@[j].ptr_offset + metas@[j].size <= cur_size
                    },
                forall|j1: int, j2: int|
                    0 <= j1 < j2 < k ==> #[trigger] metas@[j1].ptr_offset + metas@[j1].size
                        <= #[trigger] metas@[j2].ptr_offset,
            decreases n - k,
        {
            let cid = aos_comp_ids.index(k);
            let size = components[cid as usize].size;
            let align = components[cid as usize].align;
            proof {
                assert((k + 1) * (MAX_COMPONENT_SIZE + MAX_COMPONENT_ALIGN) == k * (
                MAX_COMPONENT_SIZE + MAX_COMPONENT_ALIGN) + (MAX_COMPONENT_SIZE
                    + MAX_COMPONENT_ALIGN)) by (nonlinear_arith);
                lemma_layout_budget(k as int + 1, n as int);
            }
            let offset_opt = round_up(cur_size, align);
            let offset = match offset_opt {
                Some(v) => v,
                None => {
                    return Err(EcsError::LayoutOverflow);
                },
            };
            let new_size_opt = offset.checked_add(size);
            let new_size = match new_size_opt {
                Some(v) => v,
                None => {
                    return Err(EcsError::LayoutOverflow);
                },
            };
            let ghost prev_size = cur_size;
            metas.push(TypeMetaData { comp_id: ComponentId(cid), ptr_offset: offset, size });
            cur_size = new_size;
            if align > max_align {
                max_align = align;
            }
            proof {
                assert forall|j1: int, j2: int| 0 <= j1 < j2 < k + 1 implies #[trigger] metas@[
                    j1
                ].ptr_offset + metas@[j1].size <= #[trigger] metas@[j2].ptr_offset by {
                    if j2 == k as int {
                        assert(metas@[j1].ptr_offset + metas@[j1].size <= prev_size as int);
                    }
                }
            }
            k = k + 1;
        }
        let row_size = match round_up(cur_size, max_align) {
            Some(v) => v,
            None => {
                proof {
                    lemma_layout_budget(n as int, n as int);
                }
                return Err(EcsError::LayoutOverflow);
            },
        };
        Ok(
            Self {
                archetype_id,
                vec: ThinBlobVec::new(row_size),
                cap: 0,
                len: 0,
                metas,
            },
        )
    }

    /// Append one row built from the packed components' values, `values[j]`
    /// being the bytes for the component placed by `metas()[j]`.
    pub fn insert(&mut self, values: &Vec<Vec<u8>>)
        requires
            old(self).wf(),
            values@.len() == old(self).meta_count(),
            forall|j: int|
                0 <= j < values@.len() ==> (#[trigger] values@[j])@.len() == old(self).metas()[
                    j
                ].size,
            old(self).spec_len() < usize::MAX,
        ensures
            final(self).wf(),
            final(self).spec_archetype_id() == old(self).spec_archetype_id(),
            final(self).metas() == old(self).metas(),
            final(self).row_size() == old(self).row_size(),
            final(self).spec_len() == old(self).spec_len() + 1,
            final(self).rows().len() == old(self).rows().len() + 1,
            forall|i: int| 0 <= i < old(self).rows().len() ==> #[trigger] final(self).rows()[i]
                == old(self).rows()[i],
            forall|j: int|
                0 <= j < old(self).meta_count() ==> #[trigger] final(self).rows().last().subrange(
                    old(self).metas()[j].ptr_offset as int,
                    old(self).metas()[j].ptr_offset + old(self).metas()[j].size,
                ) == values@[j]@,
    {
        let ghost pre = *self;
        let row_size = self.vec.elem_size();
        let mut rowbuf: Vec<u8> = Vec::new();
        let mut b: usize = 0;
        while b < row_size
            invariant
                b <= row_size,
                rowbuf@.len() == b,
            decreases row_size - b,
        {
            rowbuf.push(0u8);
            b = b + 1;
        }
        let mut j: usize = 0;
        while j < self.metas.len()
            invariant
                pre.wf(),
                *self == pre,
                values@.len() == pre.metas@.len(),
                forall|k: int|
                    0 <= k < values@.len() ==> (#[trigger] values@[k])@.len() == pre.metas@[
                        k
                    ].size,
                j <= self.metas@.len(),
                rowbuf@.len() == pre.vec.spec_elem_size(),
                forall|k: int, bb: int|
                    0 <= k < j && 0 <= bb < pre.metas@[k].size ==> #[trigger] rowbuf@[pre.metas@[
                        k
                    ].ptr_offset + bb] == values@[k]@[bb],
            decreases self.metas@.len() - j,
        {
            let offset = self.metas[j].ptr_offset;
            let size = self.metas[j].size;
            let ghost rowpre = rowbuf@;
            let mut bb: usize = 0;
            while bb < size
                invariant
                    0 <= j < pre.metas@.len(),
                    offset == pre.metas@[j as int].ptr_offset,
                    size == pre.metas@[j as int].size,
                    values@.len() == pre.metas@.len(),
                    values@[j as int]@.len() == size,
                    offset + size <= rowbuf@.len(),
                    rowbuf@.len() <= usize::MAX,
                    bb <= size,
                    rowbuf@.len() == rowpre.len(),
                    forall|i: int|
                        0 <= i < rowbuf@.len() && !(offset <= i < offset + bb)
                            ==> #[trigger] rowbuf@[i] == rowpre[i],
                    forall|i: int|
                        0 <= i < bb ==> #[trigger] rowbuf@[offset + i] == values@[j as int]@[i],
                decreases size - bb,
            {
                let v = values[j][bb];
                rowbuf[offset + bb] = v;
                bb = bb + 1;
            }
            proof {
                assert forall|k: int, bbb: int|
                    0 <= k < j + 1 && 0 <= bbb < pre.metas@[k].size implies #[trigger] rowbuf@[
                    pre.metas@[k].ptr_offset + bbb
                ] == values@[k]@[bbb] by {
                    if k < j {
                        // earlier components lie strictly before this one
                        assert(pre.metas@[k].ptr_offset + pre.metas@[k].size <= pre.metas@[
                            j as int
                        ].ptr_offset);
                        assert(rowbuf@[pre.metas@[k].ptr_offset + bbb] == rowpre[pre.metas@[
                            k
                        ].ptr_offset + bbb]);
                    }
                }
            }
            j = j + 1;
        }
        let ghost rowg = rowbuf@;
        self.vec.push_untyped(rowbuf);
        self.len = self.len + 1;
        self.update_capacity();
        proof {
            assert forall|jj: int| 0 <= jj < pre.metas@.len() implies #[trigger] final(self).rows().last().subrange(
                pre.metas@[jj].ptr_offset as int,
                pre.metas@[jj].ptr_offset + pre.metas@[jj].size,
            ) == values@[jj]@ by {
                let off = pre.metas@[jj].ptr_offset as int;
                let sz = pre.metas@[jj].size as int;
                assert(self.vec@.last() == rowg);
                assert forall|i: int| 0 <= i < sz implies self.vec@.last().subrange(off, off + sz)[
                    i
                ] == values@[jj]@[i] by {
                    assert(rowg[off + i] == values@[jj]@[i]);
                }
                assert(self.vec@.last().subrange(off, off + sz) =~= values@[jj]@);
            }
        }
    }

    /// Doubling capacity schedule, starting at 4.
    fn update_capacity(&mut self)
        ensures
            final(self).vec == old(self).vec,
            final(self).metas@ == old(self).metas@,
            final(self).len == old(self).len,
            final(self).archetype_id == old(self).archetype_id,
    {
        if self.cap == 0 {
            self.cap = 4;
        } else if self.len >= self.cap {
            if self.cap <= usize::MAX / 2 {
                self.cap = self.cap * 2;
            }
        }
    }

    /// Copy out the bytes of the component placed by `metas()[j]` in row
    /// `row_id`.
    pub fn get_comp_bytes(&self, j: usize, row_id: usize) -> (r: Vec<u8>)
        requires
            self.wf(),
            j < self.meta_count(),
            row_id < self.spec_len(),
        ensures
            r@ == self.rows()[row_id as int].subrange(
                self.metas()[j as int].ptr_offset as int,
                self.metas()[j as int].ptr_offset + self.metas()[j as int].size,
            ),
    {
        let offset = self.metas[j].ptr_offset;
        let size = self.metas[j].size;
        let row = self.vec.get_untyped(row_id);
        let row_len = row.len();
        let mut out: Vec<u8> = Vec::new();
        let mut b: usize = 0;
        while b < size
            invariant
                offset + size <= row@.len(),
                row@.len() == row_len,
                b <= size,
                out@ == row@.subrange(offset as int, offset + b),
            decreases size - b,
        {
            out.push(row[offset + b]);
            proof {
                assert(out@ =~= row@.subrange(offset as int, offset + b + 1));
            }
            b = b + 1;
        }
        out
    }

    /// Overwrite the bytes of the component placed by `metas()[j]` in row
    /// `row_id`; the rest of the row and all other rows are untouched.
    pub fn set_comp_bytes(&mut self, j: usize, row_id: usize, bytes: &Vec<u8>)
        requires
            old(self).wf(),
            j < old(self).meta_count(),
            row_id < old(self).spec_len(),
            bytes@.len() == old(self).metas()[j as int].size,
        ensures
            final(self).wf(),
            final(self).spec_archetype_id() == old(self).spec_archetype_id(),
            final(self).metas() == old(self).metas(),
            final(self).row_size() == old(self).row_size(),
            final(self).spec_len() == old(self).spec_len(),
            final(self).rows().len() == old(self).rows().len(),
            forall|i: int|
                0 <= i < old(self).rows().len() && i != row_id ==> #[trigger] final(self).rows()[i]
                    == old(self).rows()[i],
            final(self).rows()[row_id as int].len() == old(self).rows()[row_id as int].len(),
            final(self).rows()[row_id as int].subrange(
                old(self).metas()[j as int].ptr_offset as int,
                old(self).metas()[j as int].ptr_offset + old(self).metas()[j as int].size,
            ) == bytes@,
            forall|i: int|
                0 <= i < old(self).rows()[row_id as int].len() && !(old(self).metas()[
                    j as int
                ].ptr_offset <= i < old(self).metas()[j as int].ptr_offset + old(self).metas()[
                    j as int
                ].size) ==> #[trigger] final(self).rows()[row_id as int][i] == old(self).rows()[
                    row_id as int
                ][i],
    {
        let ghost pre = *self;
        let offset = self.metas[j].ptr_offset;
        let size = self.metas[j].size;
        let row_ref = self.vec.get_untyped(row_id);
        let mut row = crate::thin_blob_vec::clone_bytes(row_ref);
        let mut bb: usize = 0;
        while bb < size
            invariant
                0 <= row_id < pre.vec@.len(),
                offset + size <= row@.len(),
                row@.len() <= usize::MAX,
                bytes@.len() == size,
                bb <= size,
                row@.len() == pre.vec@[row_id as int].len(),
                forall|i: int|
                    0 <= i < row@.len() && !(offset <= i < offset + bb) ==> #[trigger] row@[i]
                        == pre.vec@[row_id as int][i],
                forall|i: int| 0 <= i < bb ==> #[trigger] row@[offset + i] == bytes@[i],
            decreases size - bb,
        {
            let v = bytes[bb];
            row[offset + bb] = v;
            bb = bb + 1;
        }
        let ghost rowg = row@;
        self.vec.set_untyped(row_id, row);
        proof {
            let off = pre.metas@[j as int].ptr_offset as int;
            let sz = pre.metas@[j as int].size as int;
            assert(final(self).rows()[row_id as int] == rowg);
            assert forall|i: int| 0 <= i < sz implies final(self).rows()[row_id as int].subrange(
                off,
                off + sz,
            )[i] == bytes@[i] by {
                assert(rowg[off + i] == bytes@[i]);
            }
            assert(final(self).rows()[row_id as int].subrange(off, off + sz) =~= bytes@);
        }
    }

    /// Swap-remove row `row_id`; a no-op when the row id is out of range.
    pub fn remove(&mut self, row_id: usize)
        requires
            old(self).wf(),
        ensures
            final(self).wf(),
            final(self).spec_archetype_id() == old(self).spec_archetype_id(),
            final(self).metas() == old(self).metas(),
            final(self).row_size() == old(self).row_size(),
            if row_id < old(self).spec_len() {
                &&& final(self).spec_len() == old(self).spec_len() - 1
                &&& final(self).rows() == old(self).rows().update(
                    row_id as int,
                    old(self).rows().last(),
                ).drop_last()
            } else {
                *final(self) == *old(self)
            },
    {
        if row_id >= self.len {
            return ;
        }
        self.vec.remove_and_replace_with_last(row_id);
        self.len = self.len - 1;
    }

    pub fn len(&self) -> (r: usize)
        ensures
            r == self.spec_len(),
    {
        self.len
    }

    /// What `wf` guarantees about the layout, stated publicly: every row is
    /// `row_size` bytes, every placement lies inside the row, placements
    /// are disjoint and in ascending component-id order.
    pub proof fn lemma_wf_layout(self)
        requires
            self.wf(),
        ensures
            self.rows().len() == self.spec_len(),
            forall|i: int|
                0 <= i < self.rows().len() ==> (#[trigger] self.rows()[i]).len()
                    == self.row_size(),
            forall|j: int|
                0 <= j < self.meta_count() ==> (#[trigger] self.metas()[j]).ptr_offset
                    + self.metas()[j].size <= self.row_size(),
            forall|j1: int, j2: int|
                0 <= j1 < j2 < self.meta_count() ==> #[trigger] self.metas()[j1].ptr_offset
                    + self.metas()[j1].size <= #[trigger] self.metas()[j2].ptr_offset,
            forall|j1: int, j2: int|
                0 <= j1 < j2 < self.meta_count() ==> (#[trigger] self.metas()[j1]).comp_id.0 < (
                #[trigger] self.metas()[j2]).comp_id.0,
    {
        assert forall|i: int| 0 <= i < self.rows().len() implies (#[trigger] self.rows()[i]).len()
            == self.row_size() by {
            assert(self.vec@[i].len() == self.vec.spec_elem_size());
        }
    }

    /// Position of component `cid` among the packed placements.
    pub fn meta_index_of(&self, cid: u32) -> (r: Option<usize>)
        ensures
            match r {
                Some(j) => j < self.meta_count() && self.metas()[j as int].comp_id == ComponentId(
                    cid,
                ),
                None => forall|j: int|
                    0 <= j < self.meta_count() ==> (#[trigger] self.metas()[j]).comp_id
                        != ComponentId(cid),
            },
    {
        let mut j: usize = 0;
        while j < self.metas.len()
            invariant
                j <= self.metas@.len(),
                forall|k: int|
                    0 <= k < j ==> (#[trigger] self.metas@[k]).comp_id != ComponentId(cid),
            decreases self.metas@.len() - j,
        {
            if self.metas[j].comp_id.0 == cid {
                return Some(j);
            }
            j = j + 1;
        }
        None
    }
}

/// Inside the layout loop the accumulated size stays within the per-step
/// budget, so an overflow of `usize` means the whole budget did not fit.
proof fn lemma_layout_budget(k: int, n: int)
    by (nonlinear_arith)
    requires
        0 <= k <= n,
    ensures
        k * (MAX_COMPONENT_SIZE + MAX_COMPONENT_ALIGN) <= n * (MAX_COMPONENT_SIZE
            + MAX_COMPONENT_ALIGN),
{
}

} // verus!
