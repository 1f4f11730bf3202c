//! The dependency graph: one node per system, resource, component,
//! archetype and query, with labeled edges recording the kind of access
//! that connects them.  Each id is registered at most once; inserting an id
//! a second time hands back its existing node.

use vstd::prelude::*;
use crate::component::{ArchetypeId, ComponentId};
use crate::gen_vec::Key;
use crate::graph::{Graph, Node};
use crate::resource::ResourceId;
use crate::system::SystemId;

verus! {

/// Dense id of a resolved query.
#[derive(Ord, PartialOrd, Eq, PartialEq, Structural, Clone, Copy, Hash, Debug)]
pub struct QueryId(pub u32);

/// What a node stands for.
#[derive(Eq, PartialEq, Structural, Clone, Copy, Debug)]
pub enum EcsNode {
    Component(ComponentId),
    Archetype(ArchetypeId),
    Query(QueryId),
    Resource(ResourceId),
    System(SystemId),
}

/// The kind of access an edge records.
#[derive(Eq, PartialEq, Structural, Clone, Copy, Debug)]
pub enum EcsEdge {
    Owned,
    Excl,
    Shared,
    NoAccess,
}

pub struct EcsDependencyGraph {
    graph: Graph<EcsNode, EcsEdge>,
    components: Vec<(u32, Key)>,
    archetypes: Vec<(u32, Key)>,
    queries: Vec<(u32, Key)>,
    resources: Vec<(u64, Key)>,
    systems: Vec<(u32, Key)>,
}

impl EcsDependencyGraph {
    pub closed spec fn spec_graph(self) -> Graph<EcsNode, EcsEdge> {
        self.graph
    }

    /// A registered node's key is live and labels the node it was made
    /// for.
    pub open spec fn node_is(self, key: Key, value: EcsNode) -> bool {
        self.spec_graph().spec_nodes().spec_get(key) matches Some(n) && n.value == value
    }

    /// Is a system with this id registered?
    pub closed spec fn has_system(self, id: SystemId) -> bool {
        exists|k: int| 0 <= k < self.systems@.len() && (#[trigger] self.systems@[k]).0 == id.0
    }

    /// Is a resource with this id registered?
    pub closed spec fn has_resource(self, id: ResourceId) -> bool {
        exists|k: int| 0 <= k < self.resources@.len() && (#[trigger] self.resources@[k]).0 == id.0
    }

    /// Is a component with this id registered?
    pub closed spec fn has_component(self, id: ComponentId) -> bool {
        exists|k: int|
            0 <= k < self.components@.len() && (#[trigger] self.components@[k]).0 == id.0
    }

    /// Is an archetype with this id registered?
    pub closed spec fn has_archetype(self, id: ArchetypeId) -> bool {
        exists|k: int|
            0 <= k < self.archetypes@.len() && (#[trigger] self.archetypes@[k]).0 == id.0
    }

    /// Is a query with this id registered?
    pub closed spec fn has_query(self, id: QueryId) -> bool {
        exists|k: int| 0 <= k < self.queries@.len() && (#[trigger] self.queries@[k]).0 == id.0
    }

    /// The edge label recording one declared borrow kind.
    pub open spec fn spec_edge_of(kind: crate::system::RefType) -> EcsEdge {
        match kind {
            crate::system::RefType::Exclusive => EcsEdge::Excl,
            crate::system::RefType::Owned => EcsEdge::Owned,
            crate::system::RefType::Shared => EcsEdge::Shared,
        }
    }

    /// Two labeled nodes are connected: each one's edge list holds an
    /// edge, labeled as given, pointing at the other.
    pub open spec fn records_edge(self, a: EcsNode, b: EcsNode, va: EcsEdge, vb: EcsEdge) -> bool {
        exists|ka: Key, kb: Key|
            #[trigger] self.node_is(ka, a) && #[trigger] self.node_is(kb, b)
                && self.spec_graph().spec_nodes().spec_get(ka)->0.spec_edges().contains(
                (crate::graph::Edge { value: va, node_key: kb }),
            ) && self.spec_graph().spec_nodes().spec_get(kb)->0.spec_edges().contains(
                (crate::graph::Edge { value: vb, node_key: ka }),
            )
    }

    /// The recorded key of every registered id names a live node labeled
    /// with exactly that id.
    pub closed spec fn wf_maps(self) -> bool {
        &&& forall|k: int|
            0 <= k < self.systems@.len() ==> self.node_is(
                (#[trigger] self.systems@[k]).1,
                EcsNode::System(SystemId(self.systems@[k].0)),
            )
        &&& forall|k: int|
            0 <= k < self.resources@.len() ==> self.node_is(
                (#[trigger] self.resources@[k]).1,
                EcsNode::Resource(ResourceId(self.resources@[k].0)),
            )
        &&& forall|k: int|
            0 <= k < self.components@.len() ==> self.node_is(
                (#[trigger] self.components@[k]).1,
                EcsNode::Component(ComponentId(self.components@[k].0)),
            )
        &&& forall|k: int|
            0 <= k < self.archetypes@.len() ==> self.node_is(
                (#[trigger] self.archetypes@[k]).1,
                EcsNode::Archetype(ArchetypeId(self.archetypes@[k].0)),
            )
        &&& forall|k: int|
            0 <= k < self.queries@.len() ==> self.node_is(
                (#[trigger] self.queries@[k]).1,
                EcsNode::Query(QueryId(self.queries@[k].0)),
            )
    }

    pub open spec fn wf(self) -> bool {
        &&& self.spec_graph().wf()
        &&& self.wf_maps()
    }

    pub fn new() -> (r: Self)
        ensures
            r.wf(),
            r.spec_graph().spec_nodes().slot_count() == 0,
            forall|i2: SystemId| !r.has_system(i2),
            forall|i2: ResourceId| !r.has_resource(i2),
            forall|i2: ComponentId| !r.has_component(i2),
            forall|i2: ArchetypeId| !r.has_archetype(i2),
            forall|i2: QueryId| !r.has_query(i2),
    {
        Self {
            graph: Graph::new(),
            components: Vec::new(),
            archetypes: Vec::new(),
            queries: Vec::new(),
            resources: Vec::new(),
            systems: Vec::new(),
        }
    }

    /// Register a system node, or return the one its id already has.
    #[verifier::loop_isolation(false)]
    pub fn insert_system(&mut self, system_id: SystemId) -> (key: Key)
        requires
            old(self).wf(),
        ensures
            final(self).wf(),
            final(self).spec_graph().spec_nodes().slot_count() <= old(self).spec_graph().spec_nodes().slot_count() + 1,
            old(self).has_system(system_id) ==> *final(self) == *old(self),
            old(self).spec_graph().spec_nodes().slot_count() < u32::MAX ==> final(self).node_is(key, EcsNode::System(system_id)) && final(self).has_system(system_id),
            forall|k2: Key|
                old(self).spec_graph().spec_nodes().spec_get(k2) is Some ==> #[trigger] final(self).spec_graph().spec_nodes().spec_get(k2) == old(self).spec_graph().spec_nodes().spec_get(k2),
            forall|i2: SystemId| #[trigger] old(self).has_system(i2) ==> final(self).has_system(i2),
            forall|i2: ResourceId| #[trigger] old(self).has_resource(i2) ==> final(self).has_resource(i2),
            forall|i2: ComponentId| #[trigger] old(self).has_component(i2) ==> final(self).has_component(i2),
            forall|i2: ArchetypeId| #[trigger] old(self).has_archetype(i2) ==> final(self).has_archetype(i2),
            forall|i2: QueryId| #[trigger] old(self).has_query(i2) ==> final(self).has_query(i2),
    {
        let mut k: usize = 0;
        while k < self.systems.len()
            invariant
                self.wf(),
                k <= self.systems@.len(),
                forall|k2: int| 0 <= k2 < k ==> (#[trigger] self.systems@[k2]).0 != system_id.0,
            decreases self.systems@.len() - k,
        {
            if self.systems[k].0 == system_id.0 {
                proof {
                    assert(old(self).systems@[k as int].0 == system_id.0);
                    assert(old(self).has_system(system_id));
                }
                return self.systems[k].1;
            }
            k = k + 1;
        }
        proof {
            assert(!self.has_system(system_id)) by {
                if self.has_system(system_id) {
                    let k2 = choose|k2: int|
                        0 <= k2 < self.systems@.len() && (#[trigger] self.systems@[k2]).0 == system_id.0;
                }
            }
        }
        if self.graph.node_slot_count() >= u32::MAX as usize {
            // the node id space is saturated; hand back a degenerate key
            return Key { id: 0, generation: 0 };
        }
        let key = self.graph.insert_node(Node::new(EcsNode::System(system_id)));
        self.systems.push((system_id.0, key));
        proof {
            assert(self.systems@[self.systems@.len() - 1].0 == system_id.0);
            assert(self.has_system(system_id));
            assert forall|i2: SystemId| old(self).has_system(i2) implies self.has_system(i2) by {
                let k2 = choose|k2: int|
                    0 <= k2 < old(self).systems@.len() && (#[trigger] old(self).systems@[k2]).0 == i2.0;
                assert(self.systems@[k2].0 == i2.0);
            }
        }
        key
    }

    /// Register a resource node, or return the one its id already has.
    #[verifier::loop_isolation(false)]
    pub fn insert_resource(&mut self, resource_id: ResourceId) -> (key: Key)
        requires
            old(self).wf(),
        ensures
            final(self).wf(),
            final(self).spec_graph().spec_nodes().slot_count() <= old(self).spec_graph().spec_nodes().slot_count() + 1,
            old(self).has_resource(resource_id) ==> *final(self) == *old(self),
            old(self).spec_graph().spec_nodes().slot_count() < u32::MAX ==> final(self).node_is(key, EcsNode::Resource(resource_id)) && final(self).has_resource(resource_id),
            forall|k2: Key|
                old(self).spec_graph().spec_nodes().spec_get(k2) is Some ==> #[trigger] final(self).spec_graph().spec_nodes().spec_get(k2) == old(self).spec_graph().spec_nodes().spec_get(k2),
            forall|i2: SystemId| #[trigger] old(self).has_system(i2) ==> final(self).has_system(i2),
            forall|i2: ResourceId| #[trigger] old(self).has_resource(i2) ==> final(self).has_resource(i2),
            forall|i2: ComponentId| #[trigger] old(self).has_component(i2) ==> final(self).has_component(i2),
            forall|i2: ArchetypeId| #[trigger] old(self).has_archetype(i2) ==> final(self).has_archetype(i2),
            forall|i2: QueryId| #[trigger] old(self).has_query(i2) ==> final(self).has_query(i2),
    {
        let mut k: usize = 0;
        while k < self.resources.len()
            invariant
                self.wf(),
                k <= self.resources@.len(),
                forall|k2: int| 0 <= k2 < k ==> (#[trigger] self.resources@[k2]).0 != resource_id.0,
            decreases self.resources@.len() - k,
        {
            if self.resources[k].0 == resource_id.0 {
                proof {
                    assert(old(self).resources@[k as int].0 == resource_id.0);
                    assert(old(self).has_resource(resource_id));
                }
                return self.resources[k].1;
            }
            k = k + 1;
        }
        proof {
            assert(!self.has_resource(resource_id)) by {
                if self.has_resource(resource_id) {
                    let k2 = choose|k2: int|
                        0 <= k2 < self.resources@.len() && (#[trigger] self.resources@[k2]).0 == resource_id.0;
                }
            }
        }
        if self.graph.node_slot_count() >= u32::MAX as usize {
            // the node id space is saturated; hand back a degenerate key
            return Key { id: 0, generation: 0 };
        }
        let key = self.graph.insert_node(Node::new(EcsNode::Resource(resource_id)));
        self.resources.push((resource_id.0, key));
        proof {
            assert(self.resources@[self.resources@.len() - 1].0 == resource_id.0);
            assert(self.has_resource(resource_id));
            assert forall|i2: ResourceId| old(self).has_resource(i2) implies self.has_resource(i2) by {
                let k2 = choose|k2: int|
                    0 <= k2 < old(self).resources@.len() && (#[trigger] old(self).resources@[k2]).0 == i2.0;
                assert(self.resources@[k2].0 == i2.0);
            }
        }
        key
    }

    /// Register a component node, or return the one its id already has.
    #[verifier::loop_isolation(false)]
    pub fn insert_component(&mut self, component_id: ComponentId) -> (key: Key)
        requires
            old(self).wf(),
        ensures
            final(self).wf(),
            final(self).spec_graph().spec_nodes().slot_count() <= old(self).spec_graph().spec_nodes().slot_count() + 1,
            old(self).has_component(component_id) ==> *final(self) == *old(self),
            old(self).spec_graph().spec_nodes().slot_count() < u32::MAX ==> final(self).node_is(key, EcsNode::Component(component_id)) && final(self).has_component(component_id),
            forall|k2: Key|
                old(self).spec_graph().spec_nodes().spec_get(k2) is Some ==> #[trigger] final(self).spec_graph().spec_nodes().spec_get(k2) == old(self).spec_graph().spec_nodes().spec_get(k2),
            forall|i2: SystemId| #[trigger] old(self).has_system(i2) ==> final(self).has_system(i2),
            forall|i2: ResourceId| #[trigger] old(self).has_resource(i2) ==> final(self).has_resource(i2),
            forall|i2: ComponentId| #[trigger] old(self).has_component(i2) ==> final(self).has_component(i2),
            forall|i2: ArchetypeId| #[trigger] old(self).has_archetype(i2) ==> final(self).has_archetype(i2),
            forall|i2: QueryId| #[trigger] old(self).has_query(i2) ==> final(self).has_query(i2),
    {
        let mut k: usize = 0;
        while k < self.components.len()
            invariant
                self.wf(),
                k <= self.components@.len(),
                forall|k2: int| 0 <= k2 < k ==> (#[trigger] self.components@[k2]).0 != component_id.0,
            decreases self.components@.len() - k,
        {
            if self.components[k].0 == component_id.0 {
                proof {
                    assert(old(self).components@[k as int].0 == component_id.0);
                    assert(old(self).has_component(component_id));
                }
                return self.components[k].1;
            }
            k = k + 1;
        }
        proof {
            assert(!self.has_component(component_id)) by {
                if self.has_component(component_id) {
                    let k2 = choose|k2: int|
                        0 <= k2 < self.components@.len() && (#[trigger] self.components@[k2]).0 == component_id.0;
                }
            }
        }
        if self.graph.node_slot_count() >= u32::MAX as usize {
            // the node id space is saturated; hand back a degenerate key
            return Key { id: 0, generation: 0 };
        }
        let key = self.graph.insert_node(Node::new(EcsNode::Component(component_id)));
        self.components.push((component_id.0, key));
        proof {
            assert(self.components@[self.components@.len() - 1].0 == component_id.0);
            assert(self.has_component(component_id));
            assert forall|i2: ComponentId| old(self).has_component(i2) implies self.has_component(i2) by {
                let k2 = choose|k2: int|
                    0 <= k2 < old(self).components@.len() && (#[trigger] old(self).components@[k2]).0 == i2.0;
                assert(self.components@[k2].0 == i2.0);
            }
        }
        key
    }

    /// Register an archetype node, or return the one its id already has.
    #[verifier::loop_isolation(false)]
    pub fn insert_archetype(&mut self, archetype_id: ArchetypeId) -> (key: Key)
        requires
            old(self).wf(),
        ensures
            final(self).wf(),
            final(self).spec_graph().spec_nodes().slot_count() <= old(self).spec_graph().spec_nodes().slot_count() + 1,
            old(self).has_archetype(archetype_id) ==> *final(self) == *old(self),
            old(self).spec_graph().spec_nodes().slot_count() < u32::MAX ==> final(self).node_is(key, EcsNode::Archetype(archetype_id)) && final(self).has_archetype(archetype_id),
            forall|k2: Key|
                old(self).spec_graph().spec_nodes().spec_get(k2) is Some ==> #[trigger] final(self).spec_graph().spec_nodes().spec_get(k2) == old(self).spec_graph().spec_nodes().spec_get(k2),
            forall|i2: SystemId| #[trigger] old(self).has_system(i2) ==> final(self).has_system(i2),
            forall|i2: ResourceId| #[trigger] old(self).has_resource(i2) ==> final(self).has_resource(i2),
            forall|i2: ComponentId| #[trigger] old(self).has_component(i2) ==> final(self).has_component(i2),
            forall|i2: ArchetypeId| #[trigger] old(self).has_archetype(i2) ==> final(self).has_archetype(i2),
            forall|i2: QueryId| #[trigger] old(self).has_query(i2) ==> final(self).has_query(i2),
    {
        let mut k: usize = 0;
        while k < self.archetypes.len()
            invariant
                self.wf(),
                k <= self.archetypes@.len(),
                forall|k2: int| 0 <= k2 < k ==> (#[trigger] self.archetypes@[k2]).0 != archetype_id.0,
            decreases self.archetypes@.len() - k,
        {
            if self.archetypes[k].0 == archetype_id.0 {
                proof {
                    assert(old(self).archetypes@[k as int].0 == archetype_id.0);
                    assert(old(self).has_archetype(archetype_id));
                }
                return self.archetypes[k].1;
            }
            k = k + 1;
        }
        proof {
            assert(!self.has_archetype(archetype_id)) by {
                if self.has_archetype(archetype_id) {
                    let k2 = choose|k2: int|
                        0 <= k2 < self.archetypes@.len() && (#[trigger] self.archetypes@[k2]).0 == archetype_id.0;
                }
            }
        }
        if self.graph.node_slot_count() >= u32::MAX as usize {
            // the node id space is saturated; hand back a degenerate key
            return Key { id: 0, generation: 0 };
        }
        let key = self.graph.insert_node(Node::new(EcsNode::Archetype(archetype_id)));
        self.archetypes.push((archetype_id.0, key));
        proof {
            assert(self.archetypes@[self.archetypes@.len() - 1].0 == archetype_id.0);
            assert(self.has_archetype(archetype_id));
            assert forall|i2: ArchetypeId| old(self).has_archetype(i2) implies self.has_archetype(i2) by {
                let k2 = choose|k2: int|
                    0 <= k2 < old(self).archetypes@.len() && (#[trigger] old(self).archetypes@[k2]).0 == i2.0;
                assert(self.archetypes@[k2].0 == i2.0);
            }
        }
        key
    }

    /// Register a query node, or return the one its id already has.
    #[verifier::loop_isolation(false)]
    pub fn insert_query(&mut self, query_id: QueryId) -> (key: Key)
        requires
            old(self).wf(),
        ensures
            final(self).wf(),
            final(self).spec_graph().spec_nodes().slot_count() <= old(self).spec_graph().spec_nodes().slot_count() + 1,
            old(self).has_query(query_id) ==> *final(self) == *old(self),
            old(self).spec_graph().spec_nodes().slot_count() < u32::MAX ==> final(self).node_is(key, EcsNode::Query(query_id)) && final(self).has_query(query_id),
            forall|k2: Key|
                old(self).spec_graph().spec_nodes().spec_get(k2) is Some ==> #[trigger] final(self).spec_graph().spec_nodes().spec_get(k2) == old(self).spec_graph().spec_nodes().spec_get(k2),
            forall|i2: SystemId| #[trigger] old(self).has_system(i2) ==> final(self).has_system(i2),
            forall|i2: ResourceId| #[trigger] old(self).has_resource(i2) ==> final(self).has_resource(i2),
            forall|i2: ComponentId| #[trigger] old(self).has_component(i2) ==> final(self).has_component(i2),
            forall|i2: ArchetypeId| #[trigger] old(self).has_archetype(i2) ==> final(self).has_archetype(i2),
            forall|i2: QueryId| #[trigger] old(self).has_query(i2) ==> final(self).has_query(i2),
    {
        let mut k: usize = 0;
        while k < self.queries.len()
            invariant
                self.wf(),
                k <= self.queries@.len(),
                forall|k2: int| 0 <= k2 < k ==> (#[trigger] self.queries@[k2]).0 != query_id.0,
            decreases self.queries@.len() - k,
        {
            if self.queries[k].0 == query_id.0 {
                proof {
                    assert(old(self).queries@[k as int].0 == query_id.0);
                    assert(old(self).has_query(query_id));
                }
                return self.queries[k].1;
            }
            k = k + 1;
        }
        proof {
            assert(!self.has_query(query_id)) by {
                if self.has_query(query_id) {
                    let k2 = choose|k2: int|
                        0 <= k2 < self.queries@.len() && (#[trigger] self.queries@[k2]).0 == query_id.0;
                }
            }
        }
        if self.graph.node_slot_count() >= u32::MAX as usize {
            // the node id space is saturated; hand back a degenerate key
            return Key { id: 0, generation: 0 };
        }
        let key = self.graph.insert_node(Node::new(EcsNode::Query(query_id)));
        self.queries.push((query_id.0, key));
        proof {
            assert(self.queries@[self.queries@.len() - 1].0 == query_id.0);
            assert(self.has_query(query_id));
            assert forall|i2: QueryId| old(self).has_query(i2) implies self.has_query(i2) by {
                let k2 = choose|k2: int|
                    0 <= k2 < old(self).queries@.len() && (#[trigger] old(self).queries@[k2]).0 == i2.0;
                assert(self.queries@[k2].0 == i2.0);
            }
        }
        key
    }

    /// Record an edge at both endpoints, keeping every registered mapping
    /// intact: edges never change which nodes exist or what they stand for.
    fn add_edge_checked(&mut self, k1: Key, v1: EcsEdge, k2: Key, v2: EcsEdge)
        requires
            old(self).wf(),
        ensures
            final(self).wf(),
            final(self).spec_graph().spec_nodes().slot_count() == old(self).spec_graph().spec_nodes().slot_count(),
            forall|k3: Key, v: EcsNode| #[trigger] old(self).node_is(k3, v) ==> final(self).node_is(k3, v),
            forall|k3: Key|
                (#[trigger] old(self).spec_graph().spec_nodes().spec_get(k3)) matches Some(n)
                    ==> final(self).spec_graph().spec_nodes().spec_get(k3) matches Some(n2)
                    && n2.value == n.value && n.spec_edges().is_prefix_of(n2.spec_edges()),
            forall|i2: SystemId| #[trigger] old(self).has_system(i2) ==> final(self).has_system(i2),
            forall|i2: ResourceId| #[trigger] old(self).has_resource(i2) ==> final(self).has_resource(i2),
            forall|i2: ComponentId| #[trigger] old(self).has_component(i2) ==> final(self).has_component(i2),
            forall|i2: ArchetypeId| #[trigger] old(self).has_archetype(i2) ==> final(self).has_archetype(i2),
            forall|i2: QueryId| #[trigger] old(self).has_query(i2) ==> final(self).has_query(i2),
            k1.id != k2.id ==> (match old(self).spec_graph().spec_nodes().spec_get(k1) {
                Some(n1) => final(self).spec_graph().spec_nodes().spec_get(k1) matches Some(m1)
                    && m1.value == n1.value && m1.spec_edges() == n1.spec_edges().push(
                    (crate::graph::Edge { value: v1, node_key: k2 }),
                ),
                None => final(self).spec_graph().spec_nodes().spec_get(k1) is None,
            }),
            k1.id != k2.id ==> (match old(self).spec_graph().spec_nodes().spec_get(k2) {
                Some(n2) => final(self).spec_graph().spec_nodes().spec_get(k2) matches Some(m2)
                    && m2.value == n2.value && m2.spec_edges() == n2.spec_edges().push(
                    (crate::graph::Edge { value: v2, node_key: k1 }),
                ),
                None => final(self).spec_graph().spec_nodes().spec_get(k2) is None,
            }),
    {
        let ghost pre = *self;
        self.graph.add_edge_to_both_nodes(k1, v1, k2, v2);
        proof {
            assert forall|k: int|
                0 <= k < self.systems@.len() implies self.node_is(
                (#[trigger] self.systems@[k]).1,
                EcsNode::System(SystemId(self.systems@[k].0)),
            ) by {
                assert(pre.node_is(pre.systems@[k].1, EcsNode::System(SystemId(pre.systems@[k].0))));
            }
            assert forall|k: int|
                0 <= k < self.resources@.len() implies self.node_is(
                (#[trigger] self.resources@[k]).1,
                EcsNode::Resource(ResourceId(self.resources@[k].0)),
            ) by {
                assert(pre.node_is(
                    pre.resources@[k].1,
                    EcsNode::Resource(ResourceId(pre.resources@[k].0)),
                ));
            }
            assert forall|k: int|
                0 <= k < self.components@.len() implies self.node_is(
                (#[trigger] self.components@[k]).1,
                EcsNode::Component(ComponentId(self.components@[k].0)),
            ) by {
                assert(pre.node_is(
                    pre.components@[k].1,
                    EcsNode::Component(ComponentId(pre.components@[k].0)),
                ));
            }
            assert forall|k: int|
                0 <= k < self.archetypes@.len() implies self.node_is(
                (#[trigger] self.archetypes@[k]).1,
                EcsNode::Archetype(ArchetypeId(self.archetypes@[k].0)),
            ) by {
                assert(pre.node_is(
                    pre.archetypes@[k].1,
                    EcsNode::Archetype(ArchetypeId(pre.archetypes@[k].0)),
                ));
            }
            assert forall|k: int|
                0 <= k < self.queries@.len() implies self.node_is(
                (#[trigger] self.queries@[k]).1,
                EcsNode::Query(QueryId(self.queries@[k].0)),
            ) by {
                assert(pre.node_is(pre.queries@[k].1, EcsNode::Query(QueryId(pre.queries@[k].0))));
            }
        }
    }

    /// Connect a system to a resource with the kind of access it declared,
    /// recording the edge at both endpoints.
    pub fn insert_system_resource(&mut self, system_id: SystemId, resource: ResourceId, ecs_edge_val: EcsEdge) -> (key: Key)
        requires
            old(self).wf(),
        ensures
            final(self).wf(),
            old(self).spec_graph().spec_nodes().slot_count() + 1 < u32::MAX ==> {
                &&& final(self).node_is(key, EcsNode::Resource(resource))
                &&& final(self).has_resource(resource)
                &&& final(self).has_system(system_id)
                &&& exists|ks: Key|
                    #[trigger] final(self).node_is(ks, EcsNode::System(system_id))
                        && final(self).spec_graph().spec_nodes().spec_get(
                        ks,
                    )->0.spec_edges().last() == (crate::graph::Edge {
                        value: ecs_edge_val,
                        node_key: key,
                    }) && final(self).spec_graph().spec_nodes().spec_get(
                        key,
                    )->0.spec_edges().last() == (crate::graph::Edge {
                        value: ecs_edge_val,
                        node_key: ks,
                    })
            },
    {
        let ghost pre = *self;
        let system_key = self.insert_system(system_id);
        let ghost s1 = *self;
        let resource_key = self.insert_resource(resource);
        let ghost s2 = *self;
        self.add_edge_checked(system_key, ecs_edge_val, resource_key, ecs_edge_val);
        proof {
            if pre.spec_graph().spec_nodes().slot_count() + 1 < u32::MAX {
                assert(s1.node_is(system_key, EcsNode::System(system_id)));
                assert(s2.node_is(resource_key, EcsNode::Resource(resource)));
                assert(s2.node_is(system_key, EcsNode::System(system_id)));
                assert(system_key.id != resource_key.id) by {
                    if system_key.id == resource_key.id {
                        // two live keys with one slot id carry the slot's
                        // generation, so they are the same key; one node
                        // cannot be both a system and a resource
                        assert(s2.spec_graph().spec_nodes().spec_get(system_key) is Some);
                        assert(s2.spec_graph().spec_nodes().spec_get(resource_key) is Some);
                        assert(system_key == resource_key);
                    }
                }
                let n1 = s2.spec_graph().spec_nodes().spec_get(system_key)->0;
                let m1 = self.spec_graph().spec_nodes().spec_get(system_key)->0;
                assert(m1.spec_edges() == n1.spec_edges().push(
                    (crate::graph::Edge { value: ecs_edge_val, node_key: resource_key }),
                ));
                assert(m1.spec_edges().last() == (crate::graph::Edge {
                    value: ecs_edge_val,
                    node_key: resource_key,
                }));
                let n2 = s2.spec_graph().spec_nodes().spec_get(resource_key)->0;
                let m2 = self.spec_graph().spec_nodes().spec_get(resource_key)->0;
                assert(m2.spec_edges() == n2.spec_edges().push(
                    (crate::graph::Edge { value: ecs_edge_val, node_key: system_key }),
                ));
                assert(m2.spec_edges().last() == (crate::graph::Edge {
                    value: ecs_edge_val,
                    node_key: system_key,
                }));
                assert(self.node_is(system_key, EcsNode::System(system_id)));
                assert(self.node_is(resource_key, EcsNode::Resource(resource)));
            }
        }
        resource_key
    }

    /// Connect an archetype to the components it holds (structural links).
    #[verifier::loop_isolation(false)]
    pub fn insert_archetype_components(&mut self, archetype_id: ArchetypeId, comp_ids: &Vec<ComponentId>)
        requires
            old(self).wf(),
        ensures
            final(self).wf(),
            old(self).spec_graph().spec_nodes().slot_count() + 1 + comp_ids@.len() <= u32::MAX
                ==> {
                &&& final(self).has_archetype(archetype_id)
                &&& forall|q: int|
                    0 <= q < comp_ids@.len() ==> final(self).has_component(#[trigger] comp_ids@[q])
                // a structural, access-free link on both sides per component
                &&& forall|q: int|
                    0 <= q < comp_ids@.len() ==> final(self).records_edge(
                        EcsNode::Archetype(archetype_id),
                        EcsNode::Component(#[trigger] comp_ids@[q]),
                        EcsEdge::NoAccess,
                        EcsEdge::NoAccess,
                    )
            },
    {
        let ghost can = old(self).spec_graph().spec_nodes().slot_count() + 1 + comp_ids@.len()
            <= u32::MAX;
        let arch_key = self.insert_archetype(archetype_id);
        let mut k: usize = 0;
        while k < comp_ids.len()
            invariant
                self.wf(),
                k <= comp_ids@.len(),
                self.spec_graph().spec_nodes().slot_count() <= old(self).spec_graph().spec_nodes().slot_count() + 1 + k,
                can ==> self.has_archetype(archetype_id),
                can ==> self.node_is(arch_key, EcsNode::Archetype(archetype_id)),
                can ==> forall|q: int|
                    0 <= q < k ==> self.has_component(#[trigger] comp_ids@[q]),
                can ==> forall|q: int|
                    0 <= q < k ==> self.records_edge(
                        EcsNode::Archetype(archetype_id),
                        EcsNode::Component(#[trigger] comp_ids@[q]),
                        EcsEdge::NoAccess,
                        EcsEdge::NoAccess,
                    ),
            decreases comp_ids@.len() - k,
        {
            let ghost pre_it = *self;
            let comp_key = self.insert_component(comp_ids[k]);
            let ghost s_mid = *self;
            proof {
                if can {
                    assert(s_mid.node_is(arch_key, EcsNode::Archetype(archetype_id)));
                    assert(s_mid.node_is(comp_key, EcsNode::Component(comp_ids@[k as int])));
                    assert forall|q: int| 0 <= q < k implies s_mid.records_edge(
                        EcsNode::Archetype(archetype_id),
                        EcsNode::Component(#[trigger] comp_ids@[q]),
                        EcsEdge::NoAccess,
                        EcsEdge::NoAccess,
                    ) by {
                        lemma_edge_kept_eq(
                            pre_it,
                            s_mid,
                            EcsNode::Archetype(archetype_id),
                            EcsNode::Component(comp_ids@[q]),
                            EcsEdge::NoAccess,
                            EcsEdge::NoAccess,
                        );
                    }
                }
            }
            self.add_edge_checked(arch_key, EcsEdge::NoAccess, comp_key, EcsEdge::NoAccess);
            proof {
                if can {
                    assert forall|q: int| 0 <= q < k implies self.records_edge(
                        EcsNode::Archetype(archetype_id),
                        EcsNode::Component(#[trigger] comp_ids@[q]),
                        EcsEdge::NoAccess,
                        EcsEdge::NoAccess,
                    ) by {
                        lemma_edge_kept(
                            s_mid,
                            *self,
                            EcsNode::Archetype(archetype_id),
                            EcsNode::Component(comp_ids@[q]),
                            EcsEdge::NoAccess,
                            EcsEdge::NoAccess,
                        );
                    }
                    assert(self.node_is(arch_key, EcsNode::Archetype(archetype_id)));
                    assert(self.node_is(comp_key, EcsNode::Component(comp_ids@[k as int])));
                    assert(arch_key.id != comp_key.id) by {
                        if arch_key.id == comp_key.id {
                            // two live keys with one slot id carry the
                            // slot's generation, so they are the same key;
                            // one node cannot be both
                            assert(s_mid.spec_graph().spec_nodes().spec_get(arch_key) is Some);
                            assert(s_mid.spec_graph().spec_nodes().spec_get(comp_key) is Some);
                            assert(arch_key == comp_key);
                        }
                    }
                    let n1 = s_mid.spec_graph().spec_nodes().spec_get(arch_key)->0;
                    let m1 = self.spec_graph().spec_nodes().spec_get(arch_key)->0;
                    assert(m1.spec_edges() == n1.spec_edges().push(
                        (crate::graph::Edge { value: EcsEdge::NoAccess, node_key: comp_key }),
                    ));
                    assert(m1.spec_edges().contains(
                        (crate::graph::Edge { value: EcsEdge::NoAccess, node_key: comp_key }),
                    )) by {
                        assert(m1.spec_edges()[n1.spec_edges().len() as int] == (crate::graph::Edge {
                            value: EcsEdge::NoAccess,
                            node_key: comp_key,
                        }));
                    }
                    let n2 = s_mid.spec_graph().spec_nodes().spec_get(comp_key)->0;
                    let m2 = self.spec_graph().spec_nodes().spec_get(comp_key)->0;
                    assert(m2.spec_edges() == n2.spec_edges().push(
                        (crate::graph::Edge { value: EcsEdge::NoAccess, node_key: arch_key }),
                    ));
                    assert(m2.spec_edges().contains(
                        (crate::graph::Edge { value: EcsEdge::NoAccess, node_key: arch_key }),
                    )) by {
                        assert(m2.spec_edges()[n2.spec_edges().len() as int] == (crate::graph::Edge {
                            value: EcsEdge::NoAccess,
                            node_key: arch_key,
                        }));
                    }
                    assert(self.records_edge(
                        EcsNode::Archetype(archetype_id),
                        EcsNode::Component(comp_ids@[k as int]),
                        EcsEdge::NoAccess,
                        EcsEdge::NoAccess,
                    ));
                }
            }
            k = k + 1;
        }
    }

    /// Connect a system to the components it queries, with each component's
    /// borrow kind.
    #[verifier::loop_isolation(false)]
    pub fn insert_system_components(&mut self, system_id: SystemId, comp_ids: &Vec<ComponentId>, ref_kinds: &Vec<crate::system::RefType>)
        requires
            old(self).wf(),
            ref_kinds@.len() == comp_ids@.len(),
        ensures
            final(self).wf(),
            old(self).spec_graph().spec_nodes().slot_count() + 1 + comp_ids@.len() <= u32::MAX
                ==> {
                &&& final(self).has_system(system_id)
                &&& forall|q: int|
                    0 <= q < comp_ids@.len() ==> final(self).has_component(#[trigger] comp_ids@[q])
                // each declared borrow is recorded on both sides with its
                // kind's label: the access record behind the conflict rule
                &&& forall|q: int|
                    0 <= q < comp_ids@.len() ==> final(self).records_edge(
                        EcsNode::System(system_id),
                        EcsNode::Component(#[trigger] comp_ids@[q]),
                        Self::spec_edge_of(ref_kinds@[q]),
                        Self::spec_edge_of(ref_kinds@[q]),
                    )
            },
    {
        let ghost can = old(self).spec_graph().spec_nodes().slot_count() + 1 + comp_ids@.len()
            <= u32::MAX;
        let system_key = self.insert_system(system_id);
        let mut k: usize = 0;
        while k < comp_ids.len()
            invariant
                self.wf(),
                k <= comp_ids@.len(),
                ref_kinds@.len() == comp_ids@.len(),
                self.spec_graph().spec_nodes().slot_count() <= old(self).spec_graph().spec_nodes().slot_count() + 1 + k,
                can ==> self.has_system(system_id),
                can ==> self.node_is(system_key, EcsNode::System(system_id)),
                can ==> forall|q: int|
                    0 <= q < k ==> self.has_component(#[trigger] comp_ids@[q]),
                can ==> forall|q: int|
                    0 <= q < k ==> self.records_edge(
                        EcsNode::System(system_id),
                        EcsNode::Component(#[trigger] comp_ids@[q]),
                        Self::spec_edge_of(ref_kinds@[q]),
                        Self::spec_edge_of(ref_kinds@[q]),
                    ),
            decreases comp_ids@.len() - k,
        {
            let ghost pre_it = *self;
            let comp_key = self.insert_component(comp_ids[k]);
            let ghost s_mid = *self;
            proof {
                if can {
                    assert(s_mid.node_is(system_key, EcsNode::System(system_id)));
                    assert(s_mid.node_is(comp_key, EcsNode::Component(comp_ids@[k as int])));
                    assert forall|q: int| 0 <= q < k implies s_mid.records_edge(
                        EcsNode::System(system_id),
                        EcsNode::Component(#[trigger] comp_ids@[q]),
                        Self::spec_edge_of(ref_kinds@[q]),
                        Self::spec_edge_of(ref_kinds@[q]),
                    ) by {
                        lemma_edge_kept_eq(
                            pre_it,
                            s_mid,
                            EcsNode::System(system_id),
                            EcsNode::Component(comp_ids@[q]),
                            Self::spec_edge_of(ref_kinds@[q]),
                            Self::spec_edge_of(ref_kinds@[q]),
                        );
                    }
                }
            }
            let edge = match ref_kinds[k] {
                crate::system::RefType::Exclusive => EcsEdge::Excl,
                crate::system::RefType::Owned => EcsEdge::Owned,
                crate::system::RefType::Shared => EcsEdge::Shared,
            };
            proof {
                assert(edge == Self::spec_edge_of(ref_kinds@[k as int]));
            }
            self.add_edge_checked(system_key, edge, comp_key, edge);
            proof {
                if can {
                    assert forall|q: int| 0 <= q < k implies self.records_edge(
                        EcsNode::System(system_id),
                        EcsNode::Component(#[trigger] comp_ids@[q]),
                        Self::spec_edge_of(ref_kinds@[q]),
                        Self::spec_edge_of(ref_kinds@[q]),
                    ) by {
                        lemma_edge_kept(
                            s_mid,
                            *self,
                            EcsNode::System(system_id),
                            EcsNode::Component(comp_ids@[q]),
                            Self::spec_edge_of(ref_kinds@[q]),
                            Self::spec_edge_of(ref_kinds@[q]),
                        );
                    }
                    assert(self.node_is(system_key, EcsNode::System(system_id)));
                    assert(self.node_is(comp_key, EcsNode::Component(comp_ids@[k as int])));
                    assert(system_key.id != comp_key.id) by {
                        if system_key.id == comp_key.id {
                            // two live keys with one slot id carry the
                            // slot's generation, so they are the same key;
                            // one node cannot be both
                            assert(s_mid.spec_graph().spec_nodes().spec_get(system_key) is Some);
                            assert(s_mid.spec_graph().spec_nodes().spec_get(comp_key) is Some);
                            assert(system_key == comp_key);
                        }
                    }
                    let n1 = s_mid.spec_graph().spec_nodes().spec_get(system_key)->0;
                    let m1 = self.spec_graph().spec_nodes().spec_get(system_key)->0;
                    assert(m1.spec_edges() == n1.spec_edges().push(
                        (crate::graph::Edge { value: edge, node_key: comp_key }),
                    ));
                    assert(m1.spec_edges().contains(
                        (crate::graph::Edge { value: edge, node_key: comp_key }),
                    )) by {
                        assert(m1.spec_edges()[n1.spec_edges().len() as int] == (crate::graph::Edge {
                            value: edge,
                            node_key: comp_key,
                        }));
                    }
                    let n2 = s_mid.spec_graph().spec_nodes().spec_get(comp_key)->0;
                    let m2 = self.spec_graph().spec_nodes().spec_get(comp_key)->0;
                    assert(m2.spec_edges() == n2.spec_edges().push(
                        (crate::graph::Edge { value: edge, node_key: system_key }),
                    ));
                    assert(m2.spec_edges().contains(
                        (crate::graph::Edge { value: edge, node_key: system_key }),
                    )) by {
                        assert(m2.spec_edges()[n2.spec_edges().len() as int] == (crate::graph::Edge {
                            value: edge,
                            node_key: system_key,
                        }));
                    }
                    assert(self.records_edge(
                        EcsNode::System(system_id),
                        EcsNode::Component(comp_ids@[k as int]),
                        Self::spec_edge_of(ref_kinds@[k as int]),
                        Self::spec_edge_of(ref_kinds@[k as int]),
                    ));
                }
            }
            k = k + 1;
        }
    }

    /// Connect a query to the archetypes it matched (structural links).
    #[verifier::loop_isolation(false)]
    pub fn insert_query_archetypes(&mut self, query_id: QueryId, archetype_ids: &Vec<ArchetypeId>)
        requires
            old(self).wf(),
        ensures
            final(self).wf(),
            old(self).spec_graph().spec_nodes().slot_count() + 1 + archetype_ids@.len()
                <= u32::MAX ==> {
                &&& final(self).has_query(query_id)
                &&& forall|q: int|
                    0 <= q < archetype_ids@.len() ==> final(self).has_archetype(
                        #[trigger] archetype_ids@[q],
                    )
                // a structural, access-free link on both sides per matched
                // archetype
                &&& forall|q: int|
                    0 <= q < archetype_ids@.len() ==> final(self).records_edge(
                        EcsNode::Query(query_id),
                        EcsNode::Archetype(#[trigger] archetype_ids@[q]),
                        EcsEdge::NoAccess,
                        EcsEdge::NoAccess,
                    )
            },
    {
        let ghost can = old(self).spec_graph().spec_nodes().slot_count() + 1
            + archetype_ids@.len() <= u32::MAX;
        let query_key = self.insert_query(query_id);
        let mut k: usize = 0;
        while k < archetype_ids.len()
            invariant
                self.wf(),
                k <= archetype_ids@.len(),
                self.spec_graph().spec_nodes().slot_count() <= old(self).spec_graph().spec_nodes().slot_count() + 1 + k,
                can ==> self.has_query(query_id),
                can ==> self.node_is(query_key, EcsNode::Query(query_id)),
                can ==> forall|q: int|
                    0 <= q < k ==> self.has_archetype(#[trigger] archetype_ids@[q]),
                can ==> forall|q: int|
                    0 <= q < k ==> self.records_edge(
                        EcsNode::Query(query_id),
                        EcsNode::Archetype(#[trigger] archetype_ids@[q]),
                        EcsEdge::NoAccess,
                        EcsEdge::NoAccess,
                    ),
            decreases archetype_ids@.len() - k,
        {
            let ghost pre_it = *self;
            let arch_key = self.insert_archetype(archetype_ids[k]);
            let ghost s_mid = *self;
            proof {
                if can {
                    assert(s_mid.node_is(query_key, EcsNode::Query(query_id)));
                    assert(s_mid.node_is(arch_key, EcsNode::Archetype(archetype_ids@[k as int])));
                    assert forall|q: int| 0 <= q < k implies s_mid.records_edge(
                        EcsNode::Query(query_id),
                        EcsNode::Archetype(#[trigger] archetype_ids@[q]),
                        EcsEdge::NoAccess,
                        EcsEdge::NoAccess,
                    ) by {
                        lemma_edge_kept_eq(
                            pre_it,
                            s_mid,
                            EcsNode::Query(query_id),
                            EcsNode::Archetype(archetype_ids@[q]),
                            EcsEdge::NoAccess,
                            EcsEdge::NoAccess,
                        );
                    }
                }
            }
            self.add_edge_checked(query_key, EcsEdge::NoAccess, arch_key, EcsEdge::NoAccess);
            proof {
                if can {
                    assert forall|q: int| 0 <= q < k implies self.records_edge(
                        EcsNode::Query(query_id),
                        EcsNode::Archetype(#[trigger] archetype_ids@[q]),
                        EcsEdge::NoAccess,
                        EcsEdge::NoAccess,
                    ) by {
                        lemma_edge_kept(
                            s_mid,
                            *self,
                            EcsNode::Query(query_id),
                            EcsNode::Archetype(archetype_ids@[q]),
                            EcsEdge::NoAccess,
                            EcsEdge::NoAccess,
                        );
                    }
                    assert(self.node_is(query_key, EcsNode::Query(query_id)));
                    assert(self.node_is(arch_key, EcsNode::Archetype(archetype_ids@[k as int])));
                    assert(query_key.id != arch_key.id) by {
                        if query_key.id == arch_key.id {
                            // two live keys with one slot id carry the
                            // slot's generation, so they are the same key;
                            // one node cannot be both
                            assert(s_mid.spec_graph().spec_nodes().spec_get(query_key) is Some);
                            assert(s_mid.spec_graph().spec_nodes().spec_get(arch_key) is Some);
                            assert(query_key == arch_key);
                        }
                    }
                    let n1 = s_mid.spec_graph().spec_nodes().spec_get(query_key)->0;
                    let m1 = self.spec_graph().spec_nodes().spec_get(query_key)->0;
                    assert(m1.spec_edges() == n1.spec_edges().push(
                        (crate::graph::Edge { value: EcsEdge::NoAccess, node_key: arch_key }),
                    ));
                    assert(m1.spec_edges().contains(
                        (crate::graph::Edge { value: EcsEdge::NoAccess, node_key: arch_key }),
                    )) by {
                        assert(m1.spec_edges()[n1.spec_edges().len() as int] == (crate::graph::Edge {
                            value: EcsEdge::NoAccess,
                            node_key: arch_key,
                        }));
                    }
                    let n2 = s_mid.spec_graph().spec_nodes().spec_get(arch_key)->0;
                    let m2 = self.spec_graph().spec_nodes().spec_get(arch_key)->0;
                    assert(m2.spec_edges() == n2.spec_edges().push(
                        (crate::graph::Edge { value: EcsEdge::NoAccess, node_key: query_key }),
                    ));
                    assert(m2.spec_edges().contains(
                        (crate::graph::Edge { value: EcsEdge::NoAccess, node_key: query_key }),
                    )) by {
                        assert(m2.spec_edges()[n2.spec_edges().len() as int] == (crate::graph::Edge {
                            value: EcsEdge::NoAccess,
                            node_key: query_key,
                        }));
                    }
                    assert(self.records_edge(
                        EcsNode::Query(query_id),
                        EcsNode::Archetype(archetype_ids@[k as int]),
                        EcsEdge::NoAccess,
                        EcsEdge::NoAccess,
                    ));
                }
            }
            k = k + 1;
        }
    }

    /// Connect a system to one of its queries (structural link).
    pub fn insert_system_query(&mut self, system_id: SystemId, query_id: QueryId)
        requires
            old(self).wf(),
        ensures
            final(self).wf(),
            old(self).spec_graph().spec_nodes().slot_count() + 1 < u32::MAX ==> {
                &&& final(self).has_system(system_id)
                &&& final(self).has_query(query_id)
                &&& exists|ks: Key, kq: Key|
                    #[trigger] final(self).node_is(ks, EcsNode::System(system_id))
                        && #[trigger] final(self).node_is(kq, EcsNode::Query(query_id)) && final(self).spec_graph().spec_nodes().spec_get(ks)->0.spec_edges().last() == (
                    crate::graph::Edge { value: EcsEdge::NoAccess, node_key: kq }) && final(self).spec_graph().spec_nodes().spec_get(kq)->0.spec_edges().last() == (
                    crate::graph::Edge { value: EcsEdge::NoAccess, node_key: ks })
            },
    {
        let ghost pre = *self;
        let system_key = self.insert_system(system_id);
        let ghost s1 = *self;
        let query_key = self.insert_query(query_id);
        let ghost s2 = *self;
        self.add_edge_checked(system_key, EcsEdge::NoAccess, query_key, EcsEdge::NoAccess);
        proof {
            if pre.spec_graph().spec_nodes().slot_count() + 1 < u32::MAX {
                assert(s1.node_is(system_key, EcsNode::System(system_id)));
                assert(s2.node_is(query_key, EcsNode::Query(query_id)));
                assert(s2.node_is(system_key, EcsNode::System(system_id)));
                assert(system_key.id != query_key.id) by {
                    if system_key.id == query_key.id {
                        // two live keys with one slot id carry the slot's
                        // generation, so they are the same key; one node
                        // cannot be both a system and a query
                        assert(s2.spec_graph().spec_nodes().spec_get(system_key) is Some);
                        assert(s2.spec_graph().spec_nodes().spec_get(query_key) is Some);
                        assert(system_key == query_key);
                    }
                }
                let n1 = s2.spec_graph().spec_nodes().spec_get(system_key)->0;
                let m1 = self.spec_graph().spec_nodes().spec_get(system_key)->0;
                assert(m1.spec_edges() == n1.spec_edges().push(
                    (crate::graph::Edge { value: EcsEdge::NoAccess, node_key: query_key }),
                ));
                let n2 = s2.spec_graph().spec_nodes().spec_get(query_key)->0;
                let m2 = self.spec_graph().spec_nodes().spec_get(query_key)->0;
                assert(m2.spec_edges() == n2.spec_edges().push(
                    (crate::graph::Edge { value: EcsEdge::NoAccess, node_key: system_key }),
                ));
                assert(self.node_is(system_key, EcsNode::System(system_id)));
                assert(self.node_is(query_key, EcsNode::Query(query_id)));
            }
        }
    }
}

/// A sequence element survives extension to any sequence it prefixes.
proof fn lemma_prefix_keeps_edge(
    s1: Seq<crate::graph::Edge<EcsEdge>>,
    s2: Seq<crate::graph::Edge<EcsEdge>>,
    e: crate::graph::Edge<EcsEdge>,
)
    requires
        s1.is_prefix_of(s2),
        s1.contains(e),
    ensures
        s2.contains(e),
{
    let i = choose|i: int| 0 <= i < s1.len() && s1[i] == e;
    assert(s2.subrange(0, s1.len() as int)[i] == s2[i]);
    assert(s2.contains(e)) by {
        assert(s2[i] == e);
    }
}

/// A recorded edge survives an operation that keeps every live node's
/// value and only extends edge lists.
proof fn lemma_edge_kept(
    pre: EcsDependencyGraph,
    post: EcsDependencyGraph,
    a: EcsNode,
    b: EcsNode,
    va: EcsEdge,
    vb: EcsEdge,
)
    requires
        pre.records_edge(a, b, va, vb),
        forall|k3: Key|
            (#[trigger] pre.spec_graph().spec_nodes().spec_get(k3)) matches Some(n)
                ==> post.spec_graph().spec_nodes().spec_get(k3) matches Some(n2) && n2.value
                == n.value && n.spec_edges().is_prefix_of(n2.spec_edges()),
    ensures
        post.records_edge(a, b, va, vb),
{
    let (ka, kb) = choose|ka: Key, kb: Key|
        #[trigger] pre.node_is(ka, a) && #[trigger] pre.node_is(kb, b)
            && pre.spec_graph().spec_nodes().spec_get(ka)->0.spec_edges().contains(
            (crate::graph::Edge { value: va, node_key: kb }),
        ) && pre.spec_graph().spec_nodes().spec_get(kb)->0.spec_edges().contains(
            (crate::graph::Edge { value: vb, node_key: ka }),
        );
    let na = pre.spec_graph().spec_nodes().spec_get(ka)->0;
    let nb = pre.spec_graph().spec_nodes().spec_get(kb)->0;
    let ma = post.spec_graph().spec_nodes().spec_get(ka)->0;
    let mb = post.spec_graph().spec_nodes().spec_get(kb)->0;
    lemma_prefix_keeps_edge(
        na.spec_edges(),
        ma.spec_edges(),
        (crate::graph::Edge { value: va, node_key: kb }),
    );
    lemma_prefix_keeps_edge(
        nb.spec_edges(),
        mb.spec_edges(),
        (crate::graph::Edge { value: vb, node_key: ka }),
    );
    assert(post.node_is(ka, a) && post.node_is(kb, b));
}

/// The same, for an operation that leaves every live node unchanged.
proof fn lemma_edge_kept_eq(
    pre: EcsDependencyGraph,
    post: EcsDependencyGraph,
    a: EcsNode,
    b: EcsNode,
    va: EcsEdge,
    vb: EcsEdge,
)
    requires
        pre.records_edge(a, b, va, vb),
        forall|k3: Key|
            pre.spec_graph().spec_nodes().spec_get(k3) is Some ==> #[trigger] post.spec_graph().spec_nodes().spec_get(k3) == pre.spec_graph().spec_nodes().spec_get(k3),
    ensures
        post.records_edge(a, b, va, vb),
{
    assert forall|k3: Key| (#[trigger] pre.spec_graph().spec_nodes().spec_get(k3)) is Some implies {
        let n = pre.spec_graph().spec_nodes().spec_get(k3)->0;
        post.spec_graph().spec_nodes().spec_get(k3) matches Some(n2) && n2.value == n.value
            && n.spec_edges().is_prefix_of(n2.spec_edges())
    } by {
        let n = pre.spec_graph().spec_nodes().spec_get(k3)->0;
        assert(post.spec_graph().spec_nodes().spec_get(k3) == pre.spec_graph().spec_nodes().spec_get(k3));
        assert(n.spec_edges() =~= n.spec_edges().subrange(0, n.spec_edges().len() as int));
    }
    lemma_edge_kept(pre, post, a, b, va, vb);
}

} // verus!
