//! A directed graph stored in a generational slot map: nodes are addressed
//! by `gen_vec::Key`, each node owning its outgoing edge list.

use vstd::prelude::*;
use crate::gen_vec::{GenVec, Key};

verus! {

pub struct Edge<E> {
    pub value: E,
    pub node_key: Key,
}

impl<E> Edge<E> {
    pub fn new(value: E, node_key: Key) -> (r: Self)
        ensures
            r.value == value,
            r.node_key == node_key,
    {
        Self { value, node_key }
    }
}

pub struct Node<V, E> {
    pub value: V,
    pub edges: Vec<Edge<E>>,
}

impl<V, E> Node<V, E> {
    pub open spec fn spec_edges(self) -> Seq<Edge<E>> {
        self.edges@
    }

    pub fn new(value: V) -> (r: Self)
        ensures
            r.value == value,
            r.spec_edges().len() == 0,
    {
        Self { value, edges: Vec::new() }
    }

    pub fn get_edge(&self, index: usize) -> (r: &Edge<E>)
        requires
            index < self.spec_edges().len(),
        ensures
            *r == self.spec_edges()[index as int],
    {
        &self.edges[index]
    }

    pub fn get_mut_edge(&mut self, index: usize) -> (r: &mut Edge<E>)
        requires
            index < old(self).spec_edges().len(),
        ensures
            *r == old(self).spec_edges()[index as int],
            final(self).spec_edges() == old(self).spec_edges().update(index as int, *final(r)),
            final(self).value == old(self).value,
    {
        &mut self.edges[index]
    }

    pub fn get_edges(&self) -> (r: &Vec<Edge<E>>)
        ensures
            r@ == self.spec_edges(),
    {
        &self.edges
    }

    pub fn push_edge(&mut self, edge: Edge<E>)
        ensures
            final(self).spec_edges() == old(self).spec_edges().push(edge),
            final(self).value == old(self).value,
    {
        self.edges.push(edge);
    }
}

pub struct Graph<V, E> {
    nodes: GenVec<Node<V, E>>,
}

impl<V, E> Graph<V, E> {
    pub closed spec fn spec_nodes(self) -> GenVec<Node<V, E>> {
        self.nodes
    }

    pub open spec fn wf(self) -> bool {
        self.spec_nodes().wf()
    }

    pub fn new() -> (r: Self)
        ensures
            r.wf(),
            r.spec_nodes().slot_count() == 0,
    {
        Self { nodes: GenVec::new() }
    }

    pub fn insert_node(&mut self, node: Node<V, E>) -> (key: Key)
        requires
            old(self).wf(),
            old(self).spec_nodes().slot_count() < u32::MAX,
        ensures
            final(self).wf(),
            final(self).spec_nodes().spec_get(key) == Some(node),
            final(self).spec_nodes().slot_count() <= old(self).spec_nodes().slot_count() + 1,
            forall|k2: Key|
                old(self).spec_nodes().spec_get(k2) is Some ==> #[trigger] final(self).spec_nodes().spec_get(k2) == old(self).spec_nodes().spec_get(k2),
    {
        let key = self.nodes.insert(node);
        proof {
            assert forall|k2: Key|
                old(self).spec_nodes().spec_get(k2) is Some implies #[trigger] self.spec_nodes().spec_get(k2) == old(self).spec_nodes().spec_get(k2) by {
                assert(k2.id != key.id);
                assert(self.spec_nodes().slots()[k2.id as int] == old(self).spec_nodes().slots()[
                    k2.id as int
                ]);
            }
        }
        key
    }

    /// Append an edge from the node `node_key` names to `target`; a no-op
    /// for a stale key.
    pub fn add_edge_to_first_node(&mut self, edge_val: E, node_key: Key, target: Key)
        requires
            old(self).wf(),
        ensures
            final(self).wf(),
            final(self).spec_nodes().slot_count() == old(self).spec_nodes().slot_count(),
            match old(self).spec_nodes().spec_get(node_key) {
                Some(n) => final(self).spec_nodes().spec_get(node_key) matches Some(n2)
                    && n2.value == n.value && n2.spec_edges() == n.spec_edges().push(
                    Edge { value: edge_val, node_key: target },
                ),
                None => *final(self) == *old(self),
            },
            forall|k2: Key|
                k2.id != node_key.id ==> #[trigger] final(self).spec_nodes().spec_get(k2) == old(self).spec_nodes().spec_get(k2),
    {
        let node = self.nodes.get_mut(&node_key);
        if let Some(node) = node {
            node.push_edge(Edge::new(edge_val, target));
        }
    }

    /// Record an edge at each endpoint pointing at the other, with its
    /// per-endpoint label.  Which nodes exist, and their values, are
    /// untouched: only edge lists grow.
    pub fn add_edge_to_both_nodes(&mut self, node_key1: Key, edge_val1: E, node_key2: Key, edge_val2: E)
        requires
            old(self).wf(),
        ensures
            final(self).wf(),
            final(self).spec_nodes().slot_count() == old(self).spec_nodes().slot_count(),
            forall|k: Key|
                match old(self).spec_nodes().spec_get(k) {
                    Some(n) => #[trigger] final(self).spec_nodes().spec_get(k) matches Some(n2)
                        && n2.value == n.value && n.spec_edges().is_prefix_of(n2.spec_edges()),
                    None => final(self).spec_nodes().spec_get(k) is None,
                },
            forall|k2: Key|
                k2.id != node_key1.id && k2.id != node_key2.id ==> #[trigger] final(self).spec_nodes().spec_get(k2) == old(self).spec_nodes().spec_get(k2),
            node_key1.id != node_key2.id ==> (match old(self).spec_nodes().spec_get(node_key1) {
                Some(n1) => final(self).spec_nodes().spec_get(node_key1) matches Some(m1)
                    && m1.value == n1.value && m1.spec_edges() == n1.spec_edges().push(
                    (Edge { value: edge_val1, node_key: node_key2 }),
                ),
                None => final(self).spec_nodes().spec_get(node_key1) is None,
            }),
            node_key1.id != node_key2.id ==> (match old(self).spec_nodes().spec_get(node_key2) {
                Some(n2) => final(self).spec_nodes().spec_get(node_key2) matches Some(m2)
                    && m2.value == n2.value && m2.spec_edges() == n2.spec_edges().push(
                    (Edge { value: edge_val2, node_key: node_key1 }),
                ),
                None => final(self).spec_nodes().spec_get(node_key2) is None,
            }),
    {
        let ghost pre = *self;
        self.add_edge_to_first_node(edge_val1, node_key1, node_key2);
        let ghost mid = *self;
        self.add_edge_to_first_node(edge_val2, node_key2, node_key1);
        proof {
            assert forall|k: Key|
                match pre.spec_nodes().spec_get(k) {
                    Some(n) => #[trigger] self.spec_nodes().spec_get(k) matches Some(n2)
                        && n2.value == n.value && n.spec_edges().is_prefix_of(n2.spec_edges()),
                    None => self.spec_nodes().spec_get(k) is None,
                } by {
                lemma_edge_step_preserves(pre, mid, node_key1, k);
                lemma_edge_step_preserves(mid, *self, node_key2, k);
                if pre.spec_nodes().spec_get(k) is Some {
                    let n = pre.spec_nodes().spec_get(k)->0;
                    let nm = mid.spec_nodes().spec_get(k)->0;
                    let n2 = self.spec_nodes().spec_get(k)->0;
                    lemma_edge_step_extends(pre, mid, node_key1, node_key2, edge_val1, k);
                    lemma_edge_step_extends(mid, *self, node_key2, node_key1, edge_val2, k);
                    assert(n.spec_edges().is_prefix_of(n2.spec_edges())) by {
                        assert(n.spec_edges() =~= n2.spec_edges().subrange(
                            0,
                            n.spec_edges().len() as int,
                        ));
                    }
                }
            }
        }
    }

    /// Number of node slots ever allocated.
    pub fn node_slot_count(&self) -> (r: usize)
        ensures
            r == self.spec_nodes().slot_count(),
    {
        self.nodes.slot_len()
    }

    pub fn get_node(&self, key: Key) -> (r: Option<&Node<V, E>>)
        ensures
            match r {
                Some(n) => self.spec_nodes().spec_get(key) == Some(*n),
                None => self.spec_nodes().spec_get(key) is None,
            },
    {
        self.nodes.get(&key)
    }

    pub fn get_node_mut(&mut self, key: Key) -> (r: Option<&mut Node<V, E>>)
        requires
            old(self).wf(),
        ensures
            final(self).wf(),
            match r {
                Some(n) => old(self).spec_nodes().spec_get(key) == Some(*n),
                None => old(self).spec_nodes().spec_get(key) is None && *final(self) == *old(self),
            },
    {
        self.nodes.get_mut(&key)
    }

    /// The keys a node's edges point at, in edge order; empty for a stale
    /// key.
    pub fn neighbor_keys(&self, key: Key) -> (r: Vec<Key>)
        ensures
            match self.spec_nodes().spec_get(key) {
                Some(n) => r@.len() == n.spec_edges().len() && forall|i: int|
                    0 <= i < r@.len() ==> #[trigger] r@[i] == n.spec_edges()[i].node_key,
                None => r@.len() == 0,
            },
    {
        let mut out: Vec<Key> = Vec::new();
        let node = match self.nodes.get(&key) {
            Some(n) => n,
            None => {
                return out;
            },
        };
        let edges = node.get_edges();
        let mut i: usize = 0;
        while i < edges.len()
            invariant
                edges@ == self.spec_nodes().spec_get(key)->0.spec_edges(),
                i <= edges@.len(),
                out@.len() == i,
                forall|k: int| 0 <= k < i ==> #[trigger] out@[k] == edges@[k].node_key,
            decreases edges@.len() - i,
        {
            out.push(edges[i].node_key);
            i = i + 1;
        }
        out
    }
}

/// One `add_edge_to_first_node` step leaves a live node's edge list a
/// prefix of its new one: untouched nodes keep it, the named node gains
/// one edge at the end.
proof fn lemma_edge_step_extends<V, E>(
    pre: Graph<V, E>,
    post: Graph<V, E>,
    nk: Key,
    target: Key,
    ev: E,
    k: Key,
)
    requires
        pre.spec_nodes().spec_get(k) is Some,
        (match pre.spec_nodes().spec_get(nk) {
            Some(n) => post.spec_nodes().spec_get(nk) matches Some(n2) && n2.value == n.value
                && n2.spec_edges() == n.spec_edges().push(Edge { value: ev, node_key: target }),
            None => post == pre,
        }),
        forall|k2: Key|
            k2.id != nk.id ==> #[trigger] post.spec_nodes().spec_get(k2) == pre.spec_nodes().spec_get(k2),
    ensures
        post.spec_nodes().spec_get(k) matches Some(n2) && pre.spec_nodes().spec_get(
            k,
        )->0.spec_edges().is_prefix_of(n2.spec_edges()),
{
    let n = pre.spec_nodes().spec_get(k)->0;
    if k.id == nk.id {
        if pre.spec_nodes().spec_get(nk) is Some {
            if k.generation == nk.generation {
                assert(k == nk);
                let n2 = post.spec_nodes().spec_get(k)->0;
                assert(n.spec_edges() =~= n2.spec_edges().subrange(0, n.spec_edges().len() as int));
            } else {
                assert(pre.spec_nodes().spec_get(k) is None);
            }
        } else {
            assert(post == pre);
            assert(n.spec_edges() =~= n.spec_edges().subrange(0, n.spec_edges().len() as int));
        }
    } else {
        assert(post.spec_nodes().spec_get(k) == pre.spec_nodes().spec_get(k));
        assert(n.spec_edges() =~= n.spec_edges().subrange(0, n.spec_edges().len() as int));
    }
}

/// One `add_edge_to_first_node` step keeps every node's existence and
/// value: either nothing changed, or one node's edge list grew.
proof fn lemma_edge_step_preserves<V, E>(pre: Graph<V, E>, post: Graph<V, E>, nk: Key, k: Key)
    requires
        (match pre.spec_nodes().spec_get(nk) {
            Some(n) => post.spec_nodes().spec_get(nk) matches Some(n2) && n2.value == n.value
                && n2.spec_edges().len() == n.spec_edges().len() + 1,
            None => post == pre,
        }),
        forall|k2: Key|
            k2.id != nk.id ==> #[trigger] post.spec_nodes().spec_get(k2) == pre.spec_nodes().spec_get(k2),
    ensures
        match pre.spec_nodes().spec_get(k) {
            Some(n) => post.spec_nodes().spec_get(k) matches Some(n2) && n2.value == n.value,
            None => post.spec_nodes().spec_get(k) is None,
        },
{
    if k.id == nk.id {
        if pre.spec_nodes().spec_get(nk) is Some {
            if k.generation == nk.generation {
                assert(k == nk);
            } else {
                assert(pre.spec_nodes().spec_get(k) is None);
                assert(post.spec_nodes().spec_get(k) is None) by {
                    if post.spec_nodes().spec_get(k) is Some {
                        assert(post.spec_nodes().gen_of(k.id as int) == k.generation);
                        assert(post.spec_nodes().gen_of(nk.id as int) == nk.generation);
                    }
                }
            }
        }
    }
}

} // verus!
