//! Errors of the engine.  Configuration mistakes (a duplicated component in
//! one entity, exhausted id spaces, an impossible row layout, a cyclic
//! ordering constraint) are surfaced as values; stale entity keys are not
//! errors at all and are absorbed as `None`/no-ops where they occur.

use vstd::prelude::*;
use crate::component::ComponentId;
use crate::system::SystemId;

verus! {

#[derive(Clone, Debug)]
pub enum EcsError {
    /// The same component type appears twice in one entity's component list.
    DuplicateComponent(ComponentId),
    /// More distinct component types than the 32-bit id space holds.
    ComponentIdSpaceExhausted,
    /// More archetypes than the 32-bit id space holds.
    ArchetypeIdSpaceExhausted,
    /// More rows in one table than the 32-bit row-id space holds.
    RowIdSpaceExhausted,
    /// A component's declared layout is outside the engine's limits.
    UnsupportedLayout,
    /// A type key was re-registered with a different layout or storage.
    InconsistentRegistration,
    /// A packed row would not fit in the address space.
    LayoutOverflow,
    /// The systems' `before`/`after` constraints contain a cycle; the ids
    /// that could not be scheduled are listed.
    SchedulingLoop(Vec<SystemId>),
}

impl EcsError {
    /// A short human-readable description.
    pub fn describe(&self) -> String {
        match self {
            EcsError::DuplicateComponent(_) => String::from_str(
                "same component contained multiple times inside of entity",
            ),
            EcsError::ComponentIdSpaceExhausted => String::from_str(
                "component ids have increased over their max possible u32 value",
            ),
            EcsError::ArchetypeIdSpaceExhausted => String::from_str(
                "archetype ids have increased over their max possible u32 value",
            ),
            EcsError::RowIdSpaceExhausted => String::from_str(
                "row ids have increased over their max possible u32 value",
            ),
            EcsError::UnsupportedLayout => String::from_str(
                "component layout outside supported limits",
            ),
            EcsError::InconsistentRegistration => String::from_str(
                "component type registered again with a different layout",
            ),
            EcsError::LayoutOverflow => String::from_str("packed row layout overflows"),
            EcsError::SchedulingLoop(_) => String::from_str("system scheduling loop detected"),
        }
    }
}

} // verus!
