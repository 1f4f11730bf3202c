//! The one trait every dense engine id implements: expose the raw `u32`,
//! also widened to `usize` for indexing.

use vstd::prelude::*;
use crate::component::{ArchetypeId, ComponentId};
use crate::dependency::QueryId;
use crate::system::SystemId;

verus! {

pub trait EcsId {
    /// The raw id value, in specifications.
    spec fn spec_id(&self) -> u32;

    fn id(&self) -> (r: u32)
        ensures
            r == self.spec_id(),
    ;

    fn id_usize(&self) -> (r: usize)
        ensures
            r == self.spec_id(),
    ;
}

impl EcsId for ComponentId {
    open spec fn spec_id(&self) -> u32 {
        self.0
    }

    fn id(&self) -> u32 {
        self.0
    }

    fn id_usize(&self) -> usize {
        self.0 as usize
    }
}

impl EcsId for ArchetypeId {
    open spec fn spec_id(&self) -> u32 {
        self.0
    }

    fn id(&self) -> u32 {
        self.0
    }

    fn id_usize(&self) -> usize {
        self.0 as usize
    }
}

impl EcsId for SystemId {
    open spec fn spec_id(&self) -> u32 {
        self.0
    }

    fn id(&self) -> u32 {
        self.0
    }

    fn id_usize(&self) -> usize {
        self.0 as usize
    }
}

impl EcsId for QueryId {
    open spec fn spec_id(&self) -> u32 {
        self.0
    }

    fn id(&self) -> u32 {
        self.0
    }

    fn id_usize(&self) -> usize {
        self.0 as usize
    }
}

} // verus!
