//! A directed graph whose nodes name the nodes they point to by id.

use std::collections::HashMap;
use std::hash::Hash;
use vstd::prelude::*;
use vstd::std_specs::hash::obeys_key_model;

verus! {

/// A node of a graph: an id, a value, and the ids of the nodes it points to,
/// if it points to any.
pub trait GraphNode {
    type Id;

    type Value;

    /// The id, to a specification.
    spec fn own_id(&self) -> Self::Id;

    /// The value, to a specification.
    spec fn own_value(&self) -> Self::Value;

    /// The ids of the nodes pointed to, to a specification.
    spec fn targets(&self) -> Option<Seq<Self::Id>>;

    /// The id of the node.
    fn id(&self) -> (r: &Self::Id)
        ensures
            *r == self.own_id(),
    ;

    /// The value of the node.
    fn value(&self) -> (r: &Self::Value)
        ensures
            *r == self.own_value(),
    ;

    /// The ids of the nodes that the node points to, if it points to any.
    fn nodes(&self) -> (r: &Option<Vec<Self::Id>>)
        ensures
            match r {
                Some(ids) => self.targets() == Some(ids@),
                None => self.targets() is None,
            },
    ;
}

/// A graph: a finite collection of nodes, found by key.
pub trait Graph<Node, Key> where Node: GraphNode {
    /// The nodes by key, to a specification.
    spec fn contents(&self) -> Map<Key, Node>;

    /// The key under which the graph keeps `node`, to a specification.
    spec fn key_of(node: &Node) -> Key;

    /// The keys of the graph behave as keys should.
    spec fn sound(&self) -> bool;

    /// A sound graph has finitely many nodes.
    proof fn lemma_finite(&self)
        requires
            self.sound(),
        ensures
            self.contents().dom().finite(),
    ;

    /// Puts `node` into the graph, in place of any node under the same key.
    fn insert(&mut self, node: Node)
        requires
            old(self).sound(),
        ensures
            final(self).sound(),
            final(self).contents() == old(self).contents().insert(Self::key_of(&node), node),
    ;

    /// The node found under `node_id`, if there is one.
    fn get(&self, node_id: &Key) -> (r: Option<&Node>)
        requires
            self.sound(),
        ensures
            match r {
                Some(node) => self.contents().contains_key(*node_id) && *node
                    == self.contents()[*node_id],
                None => !self.contents().contains_key(*node_id),
            },
    ;

    /// The number of nodes.
    fn len(&self) -> (r: usize)
        requires
            self.sound(),
        ensures
            r == self.contents().len(),
    ;

    /// Whether the graph has no node.
    fn is_empty(&self) -> (r: bool)
        requires
            self.sound(),
        ensures
            r == (self.contents().len() == 0),
    ;
}

/// A node of a `BasicGraph`.
#[derive(Debug)]
pub struct BasicGraphNode<T, K> {
    id: K,
    value: T,
    nodes: Option<Vec<K>>,
}

impl<T, K> BasicGraphNode<T, K> {
    /// A node that points to the nodes with the ids `nodes`.
    pub fn new(id: K, value: T, nodes: Option<Vec<K>>) -> (r: Self)
        ensures
            r.own_id() == id,
            r.own_value() == value,
            r.targets() == match nodes {
                Some(ids) => Some(ids@),
                None => None,
            },
    {
        Self { id, value, nodes }
    }
}

impl<T, K> GraphNode for BasicGraphNode<T, K> {
    type Id = K;

    type Value = T;

    closed spec fn own_id(&self) -> K {
        self.id
    }

    closed spec fn own_value(&self) -> T {
        self.value
    }

    closed spec fn targets(&self) -> Option<Seq<K>> {
        match self.nodes {
            Some(ids) => Some(ids@),
            None => None,
        }
    }

    fn id(&self) -> (r: &K) {
        &self.id
    }

    fn value(&self) -> (r: &T) {
        &self.value
    }

    fn nodes(&self) -> (r: &Option<Vec<K>>) {
        &self.nodes
    }
}

/// A graph that keeps each node under the node's own id.
pub struct BasicGraph<T, K>(HashMap<K, BasicGraphNode<T, K>>);

impl<T, K> BasicGraph<T, K> {
    /// A graph without nodes.
    pub fn new() -> (r: Self)
        ensures
            r.nodes_by_id() == Map::<K, BasicGraphNode<T, K>>::empty(),
    {
        BasicGraph(HashMap::new())
    }

    /// The nodes by the id under which they were inserted.
    pub closed spec fn nodes_by_id(&self) -> Map<K, BasicGraphNode<T, K>> {
        self.0@
    }
}

impl<T, K> Graph<BasicGraphNode<T, K>, K> for BasicGraph<T, K> where K: Eq + Hash + Copy {
    open spec fn contents(&self) -> Map<K, BasicGraphNode<T, K>> {
        self.nodes_by_id()
    }

    open spec fn key_of(node: &BasicGraphNode<T, K>) -> K {
        node.own_id()
    }

    open spec fn sound(&self) -> bool {
        obeys_key_model::<K>()
    }

    proof fn lemma_finite(&self) {
    }

    fn insert(&mut self, node: BasicGraphNode<T, K>) {
        self.0.insert(node.id, node);
    }

    fn get(&self, node_id: &K) -> (r: Option<&BasicGraphNode<T, K>>) {
        self.0.get(node_id)
    }

    fn len(&self) -> (r: usize) {
        self.0.len()
    }

    fn is_empty(&self) -> (r: bool) {
        self.0.len() == 0
    }
}

impl<T, K> Default for BasicGraph<T, K> where K: Eq + Hash + Copy {
    fn default() -> (r: Self)
        ensures
            r.nodes_by_id() == Map::<K, BasicGraphNode<T, K>>::empty(),
    {
        Self::new()
    }
}

} // verus!
