//! A type-erased growable column: a vector of equally sized byte records.
//! The element type is unknown at compile time; only its size is known, at
//! run time.  Each record is one value of that type, as bytes.  Removal is
//! swap-remove: the last record moves into the hole, so removal is O(1) but
//! renumbers the record that moved.

use vstd::prelude::*;

verus! {

/// Copy a byte vector.
pub fn clone_bytes(src: &Vec<u8>) -> (r: Vec<u8>)
    ensures
        r@ == src@,
{
    let mut out: Vec<u8> = Vec::new();
    let mut i: usize = 0;
    while i < src.len()
        invariant
            i <= src@.len(),
            out@ == src@.subrange(0, i as int),
        decreases src@.len() - i,
    {
        out.push(src[i]);
        proof {
            assert(out@ =~= src@.subrange(0, (i + 1) as int));
        }
        i = i + 1;
    }
    proof {
        assert(src@.subrange(0, src@.len() as int) =~= src@);
    }
    out
}

/// The erased column.  The view is the sequence of records, each a byte
/// sequence of length `elem_size`.
pub struct ThinBlobVec {
    elem_size: usize,
    elems: Vec<Vec<u8>>,
}

impl ThinBlobVec {
    /// The records, each as its byte sequence.
    pub closed spec fn view(self) -> Seq<Seq<u8>> {
        self.elems@.map_values(|v: Vec<u8>| v@)
    }

    pub closed spec fn spec_elem_size(self) -> usize {
        self.elem_size
    }

    /// Every record is exactly one element worth of bytes.
    pub open spec fn wf(self) -> bool {
        forall|i: int| 0 <= i < self@.len() ==> #[trigger] self@[i].len() == self.spec_elem_size()
    }

    pub fn new(elem_size: usize) -> (r: Self)
        ensures
            r.wf(),
            r@.len() == 0,
            r.spec_elem_size() == elem_size,
    {
        Self { elem_size, elems: Vec::new() }
    }

    pub fn elem_size(&self) -> (r: usize)
        ensures
            r == self.spec_elem_size(),
    {
        self.elem_size
    }

    pub fn len(&self) -> (r: usize)
        ensures
            r == self@.len(),
    {
        self.elems.len()
    }

    /// Append one record, taking ownership of its bytes.
    pub fn push_untyped(&mut self, bytes: Vec<u8>)
        requires
            old(self).wf(),
            bytes@.len() == old(self).spec_elem_size(),
        ensures
            final(self).wf(),
            final(self)@ == old(self)@.push(bytes@),
            final(self).spec_elem_size() == old(self).spec_elem_size(),
    {
        self.elems.push(bytes);
        proof {
            assert(self@ =~= old(self)@.push(bytes@));
        }
    }

    /// Read the record at `index`.
    pub fn get_untyped(&self, index: usize) -> (r: &Vec<u8>)
        requires
            index < self@.len(),
        ensures
            r@ == self@[index as int],
    {
        &self.elems[index]
    }

    /// Overwrite the record at `index`.
    pub fn set_untyped(&mut self, index: usize, bytes: Vec<u8>)
        requires
            old(self).wf(),
            index < old(self)@.len(),
            bytes@.len() == old(self).spec_elem_size(),
        ensures
            final(self).wf(),
            final(self)@ == old(self)@.update(index as int, bytes@),
            final(self).spec_elem_size() == old(self).spec_elem_size(),
    {
        self.elems[index] = bytes;
        proof {
            assert(self@ =~= old(self)@.update(index as int, bytes@));
        }
    }

    /// Swap-remove: the record at `index` is destroyed, the last record
    /// takes its place (when it was not itself the last), and the column
    /// shrinks by one.
    pub fn remove_and_replace_with_last(&mut self, index: usize)
        requires
            old(self).wf(),
            index < old(self)@.len(),
        ensures
            final(self).wf(),
            final(self)@ == old(self)@.update(index as int, old(self)@.last()).drop_last(),
            final(self).spec_elem_size() == old(self).spec_elem_size(),
    {
        let _ = self.elems.swap_remove(index);
        proof {
            assert(self@ =~= old(self)@.update(index as int, old(self)@.last()).drop_last());
        }
    }
}

} // verus!
