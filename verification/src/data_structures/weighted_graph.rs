//! A directed graph with weighted edges, kept in an arena.
//!
//! Nodes live in a vector and edges name their target by its slot in it. A
//! hash map leads from each id to the slot of the node that carries it.

use std::collections::HashMap;
use std::hash::Hash;
use vstd::prelude::*;
use vstd::std_specs::hash::obeys_key_model;

verus! {

/// An edge, to a specification.
pub struct EdgeView<K> {
    pub weight: int,
    /// The slot of the target.
    pub node: int,
    /// The id of the target.
    pub id: K,
}

/// A node, to a specification.
pub struct WeightedNodeView<K> {
    pub id: K,
    /// The outgoing edges, in the order in which they were connected.
    pub edges: Seq<EdgeView<K>>,
}

/// A graph, to a specification.
#[verifier::reject_recursive_types(K)]
pub struct WeightedGraphView<K> {
    /// The nodes, by slot.
    pub nodes: Seq<WeightedNodeView<K>>,
    /// The slot registered for each id.
    pub index: Map<K, usize>,
}

impl<K> WeightedGraphView<K> {
    /// `i` names a node.
    pub open spec fn has(self, i: int) -> bool {
        0 <= i < self.nodes.len()
    }

    /// The index leads to nodes that carry the id they are registered under,
    /// and every edge leads to a node that carries the id the edge names.
    pub open spec fn wf(self) -> bool {
        &&& forall|k: K| #[trigger]
            self.index.contains_key(k) ==> self.has(self.index[k] as int)
                && self.nodes[self.index[k] as int].id == k
        &&& forall|i: int, e: int|
            self.has(i) && 0 <= e < self.nodes[i].edges.len() ==> self.has(
                (#[trigger] self.nodes[i].edges[e]).node,
            ) && self.nodes[self.nodes[i].edges[e].node].id == self.nodes[i].edges[e].id
                && self.index.contains_key(self.nodes[i].edges[e].id)
    }
}

/// An edge to the node in slot `node`, which carries `id`.
pub struct Edge<K> {
    weight: i32,
    node: usize,
    id: K,
}

impl<K> View for Edge<K> {
    type V = EdgeView<K>;

    closed spec fn view(&self) -> EdgeView<K> {
        EdgeView { weight: self.weight as int, node: self.node as int, id: self.id }
    }
}

impl<K> Edge<K> {
    /// The weight of the edge.
    pub fn weight(&self) -> (r: i32)
        ensures
            r == self@.weight,
    {
        self.weight
    }

    /// The slot of the node that the edge leads to.
    pub fn node(&self) -> (r: usize)
        ensures
            r == self@.node,
    {
        self.node
    }

    /// The id of the node that the edge leads to.
    pub fn id(&self) -> (r: &K)
        ensures
            *r == self@.id,
    {
        &self.id
    }
}

/// A node with its outgoing edges.
pub struct WeightedGraphNode<K> {
    id: K,
    nodes: Vec<Edge<K>>,
}

impl<K> View for WeightedGraphNode<K> {
    type V = WeightedNodeView<K>;

    closed spec fn view(&self) -> WeightedNodeView<K> {
        WeightedNodeView {
            id: self.id,
            edges: Seq::new(self.nodes@.len(), |e: int| self.nodes@[e]@),
        }
    }
}

impl<K> WeightedGraphNode<K> where K: Ord + Hash + Copy + Eq {
    /// A node without edges.
    pub fn new(id: K) -> (r: Self)
        ensures
            r@ == (WeightedNodeView { id, edges: Seq::empty() }),
    {
        let r = Self { id, nodes: Vec::new() };
        proof {
            assert(r@.edges =~= Seq::empty());
        }
        r
    }

    /// The id that the node carries.
    pub fn id(&self) -> (r: K)
        ensures
            r == self@.id,
    {
        self.id
    }

    /// The outgoing edges.
    pub fn nodes(&self) -> (r: &Vec<Edge<K>>)
        ensures
            r@.len() == self@.edges.len(),
            forall|e: int| 0 <= e < r@.len() ==> (#[trigger] r@[e])@ == self@.edges[e],
    {
        &self.nodes
    }
}

/// A directed graph whose edges have integer weights.
pub struct WeightedGraph<K> {
    arena: Vec<WeightedGraphNode<K>>,
    index: HashMap<K, usize>,
}

impl<K> View for WeightedGraph<K> {
    type V = WeightedGraphView<K>;

    closed spec fn view(&self) -> WeightedGraphView<K> {
        WeightedGraphView {
            nodes: Seq::new(self.arena@.len(), |i: int| self.arena@[i]@),
            index: self.index@,
        }
    }
}

impl<K> WeightedGraph<K> where K: Ord + Hash + Copy + Eq {
    /// The graph is consistent and its ids behave as hash keys should.
    pub open spec fn wf(&self) -> bool {
        &&& obeys_key_model::<K>()
        &&& self@.wf()
    }

    /// A graph without nodes.
    pub fn new() -> (r: Self)
        requires
            obeys_key_model::<K>(),
        ensures
            r.wf(),
            r@.nodes == Seq::<WeightedNodeView<K>>::empty(),
            r@.index == Map::<K, usize>::empty(),
    {
        let r = WeightedGraph { arena: Vec::new(), index: HashMap::new() };
        proof {
            assert(r@.nodes =~= Seq::<WeightedNodeView<K>>::empty());
        }
        r
    }

    /// Adds a node without edges under `id`. A node that carried the id
    /// before stays the target of the edges that lead to it, and is no
    /// longer found under the id.
    pub fn insert(&mut self, id: K)
        requires
            old(self).wf(),
        ensures
            final(self).wf(),
            final(self)@.nodes == old(self)@.nodes.push(
                WeightedNodeView { id, edges: Seq::empty() },
            ),
            final(self)@.index == old(self)@.index.insert(id, old(self)@.nodes.len() as usize),
    {
        let node = WeightedGraphNode::new(id);
        let slot = self.arena.len();
        self.arena.push(node);
        self.index.insert(id, slot);
        proof {
            let s = old(self)@;
            let f = self@;
            assert(f.nodes =~= s.nodes.push(WeightedNodeView { id, edges: Seq::empty() }));
            assert forall|k: K| #[trigger] f.index.contains_key(k) implies f.has(
                f.index[k] as int,
            ) && f.nodes[f.index[k] as int].id == k by {
                if k != id {
                    assert(s.index.contains_key(k));
                }
            }
            assert forall|i: int, e: int|
                f.has(i) && 0 <= e < f.nodes[i].edges.len() implies f.has(
                (#[trigger] f.nodes[i].edges[e]).node,
            ) && f.nodes[f.nodes[i].edges[e].node].id == f.nodes[i].edges[e].id
                && f.index.contains_key(f.nodes[i].edges[e].id) by {
                assert(s.has(s.nodes[i].edges[e].node));
            }
        }
    }

    /// Adds an edge of weight `edge_weight` from the node under
    /// `from_node_id` to the node under `to_node_id`.
    pub fn connect(&mut self, from_node_id: K, to_node_id: K, edge_weight: i32)
        requires
            old(self).wf(),
            old(self)@.index.contains_key(from_node_id),
            old(self)@.index.contains_key(to_node_id),
        ensures
            final(self).wf(),
            final(self)@.index == old(self)@.index,
            ({
                let from = old(self)@.index[from_node_id] as int;
                let to = old(self)@.index[to_node_id] as int;
                final(self)@.nodes == old(self)@.nodes.update(
                    from,
                    WeightedNodeView {
                        id: from_node_id,
                        edges: old(self)@.nodes[from].edges.push(
                            EdgeView { weight: edge_weight as int, node: to, id: to_node_id },
                        ),
                    },
                )
            }),
    {
        let from = *self.index.get(&from_node_id).unwrap();
        let to = *self.index.get(&to_node_id).unwrap();
        proof {
            assert(old(self)@.has(from as int));
            assert(old(self)@.has(to as int));
        }
        self.arena[from].nodes.push(Edge { weight: edge_weight, node: to, id: to_node_id });
        proof {
            let s = old(self)@;
            let f = self@;
            let edge = EdgeView { weight: edge_weight as int, node: to as int, id: to_node_id };
            let grown = WeightedNodeView {
                id: from_node_id,
                edges: s.nodes[from as int].edges.push(edge),
            };
            assert(f.nodes[from as int].edges =~= grown.edges);
            assert(f.nodes =~= s.nodes.update(from as int, grown));
            assert forall|k: K| #[trigger] f.index.contains_key(k) implies f.has(
                f.index[k] as int,
            ) && f.nodes[f.index[k] as int].id == k by {
                assert(s.index.contains_key(k));
            }
            assert forall|i: int, e: int|
                f.has(i) && 0 <= e < f.nodes[i].edges.len() implies f.has(
                (#[trigger] f.nodes[i].edges[e]).node,
            ) && f.nodes[f.nodes[i].edges[e].node].id == f.nodes[i].edges[e].id
                && f.index.contains_key(f.nodes[i].edges[e].id) by {
                if i == from && e == s.nodes[from as int].edges.len() {
                } else {
                    assert(s.has(s.nodes[i].edges[e].node));
                }
            }
        }
    }

    /// The node registered under `node_id`, if there is one.
    pub fn get(&self, node_id: &K) -> (r: Option<&WeightedGraphNode<K>>)
        requires
            self.wf(),
        ensures
            match r {
                Some(node) => self@.index.contains_key(*node_id) && node@
                    == self@.nodes[self@.index[*node_id] as int],
                None => !self@.index.contains_key(*node_id),
            },
    {
        match self.index.get(node_id) {
            Some(slot) => {
                proof {
                    assert(self@.index.contains_key(*node_id));
                    assert(self@.has(*slot as int));
                }
                Some(&self.arena[*slot])
            },
            None => None,
        }
    }

    /// The slot of the node registered under `node_id`, if there is one.
    pub fn slot(&self, node_id: &K) -> (r: Option<usize>)
        requires
            self.wf(),
        ensures
            match r {
                Some(slot) => self@.index.contains_key(*node_id) && slot == self@.index[*node_id]
                    && self@.has(slot as int),
                None => !self@.index.contains_key(*node_id),
            },
    {
        match self.index.get(node_id) {
            Some(slot) => {
                proof {
                    assert(self@.index.contains_key(*node_id));
                }
                Some(*slot)
            },
            None => None,
        }
    }

    /// The node in arena slot `slot`, if there is one.
    pub fn node(&self, slot: usize) -> (r: Option<&WeightedGraphNode<K>>)
        ensures
            match r {
                Some(node) => self@.has(slot as int) && node@ == self@.nodes[slot as int],
                None => !self@.has(slot as int),
            },
    {
        if slot < self.arena.len() {
            Some(&self.arena[slot])
        } else {
            None
        }
    }

    /// The number of arena slots: every node ever inserted has one.
    pub fn slots(&self) -> (r: usize)
        ensures
            r == self@.nodes.len(),
    {
        self.arena.len()
    }

    /// The number of ids that name a node.
    pub fn len(&self) -> (r: usize)
        requires
            self.wf(),
        ensures
            r == self@.index.len(),
    {
        self.index.len()
    }

    /// Whether no id names a node.
    pub fn is_empty(&self) -> (r: bool)
        requires
            self.wf(),
        ensures
            r == (self@.index.len() == 0),
    {
        self.index.len() == 0
    }
}

impl<K> Default for WeightedGraph<K> where K: Ord + Hash + Copy + Eq {
    fn default() -> (r: Self)
        ensures
            obeys_key_model::<K>() ==> r.wf(),
            r@.nodes == Seq::<WeightedNodeView<K>>::empty(),
    {
        let r = WeightedGraph { arena: Vec::new(), index: HashMap::new() };
        proof {
            assert(r@.nodes =~= Seq::<WeightedNodeView<K>>::empty());
        }
        r
    }
}

} // verus!
