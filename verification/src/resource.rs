//! Identity of a world resource.  A resource is a single value keyed by its
//! type; the engine names it by the caller-supplied 64-bit type key.

use vstd::prelude::*;

verus! {

#[derive(Ord, PartialOrd, Eq, PartialEq, Structural, Clone, Copy, Hash, Debug)]
pub struct ResourceId(pub u64);

impl ResourceId {
    pub fn new(type_key: u64) -> (r: Self)
        ensures
            r == ResourceId(type_key),
    {
        ResourceId(type_key)
    }
}

} // verus!
