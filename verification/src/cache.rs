//! A small pool of scratch id vectors, so the hot entity-insertion paths
//! reuse allocations instead of allocating a fresh vector per call.

use vstd::prelude::*;

verus! {

/// Pool of cleared `Vec<u32>` scratch buffers.
pub struct CollectionCache {
    vec: Vec<Vec<u32>>,
}

impl CollectionCache {
    /// Every pooled buffer is empty.
    pub closed spec fn wf(self) -> bool {
        forall|i: int| 0 <= i < self.vec@.len() ==> (#[trigger] self.vec@[i])@.len() == 0
    }

    pub fn new() -> (r: Self)
        ensures
            r.wf(),
    {
        Self { vec: Vec::new() }
    }

    /// Take a cleared buffer out of the pool, or a fresh one.
    pub fn take_cached(&mut self) -> (r: Vec<u32>)
        requires
            old(self).wf(),
        ensures
            final(self).wf(),
            r@.len() == 0,
    {
        match self.vec.pop() {
            Some(elem) => elem,
            None => Vec::new(),
        }
    }

    /// Return a buffer to the pool; it is cleared on the way in.
    pub fn insert(&mut self, to_cache: Vec<u32>)
        requires
            old(self).wf(),
        ensures
            final(self).wf(),
    {
        let mut to_cache = to_cache;
        to_cache.clear();
        self.vec.push(to_cache);
    }
}

/// The scratch pools the entity storage uses.
pub struct EntityStorageCache {
    pub compid_vec_cache: CollectionCache,
}

impl EntityStorageCache {
    pub open spec fn wf(self) -> bool {
        self.compid_vec_cache.wf()
    }

    pub fn new() -> (r: Self)
        ensures
            r.wf(),
    {
        Self { compid_vec_cache: CollectionCache::new() }
    }
}

} // verus!
