//! A tree whose nodes may have any number of children, kept in an arena.
//!
//! Nodes live in a vector in the order in which they were inserted, the head
//! first, and name their parent and children by slot. A child is always
//! inserted after its parent, so child slots follow the slot of the parent.

use std::collections::HashMap;
use std::hash::Hash;
use vstd::prelude::*;
use vstd::std_specs::hash::obeys_key_model;

verus! {

/// A node of a tree: an id, a value, the slot of the parent and the slots of
/// the children.
pub trait TreeNode<V, K> {
    /// The id, to a specification.
    spec fn own_id(&self) -> K;

    /// The value, to a specification.
    spec fn own_value(&self) -> V;

    /// The slot of the parent, to a specification.
    spec fn parent_slot(&self) -> Option<usize>;

    /// The slots of the children, to a specification.
    spec fn child_slots(&self) -> Seq<usize>;

    /// The id under which the node is registered.
    fn id(&self) -> (r: &K)
        ensures
            *r == self.own_id(),
    ;

    /// The value of the node.
    fn value(&self) -> (r: &V)
        ensures
            *r == self.own_value(),
    ;

    /// The slot of the parent, `None` at the head of a tree.
    fn parent(&self) -> (r: Option<usize>)
        ensures
            r == self.parent_slot(),
    ;

    /// The slots of the children, in the order in which they were inserted.
    fn nodes(&self) -> (r: Vec<usize>)
        ensures
            r@ == self.child_slots(),
    ;
}

/// A tree: an arena of nodes with the head in slot 0.
pub trait Tree<Node, V, K> where Node: TreeNode<V, K> {
    /// The nodes by slot, to a specification.
    spec fn arena(&self) -> Seq<Node>;

    /// The slot registered for each id, to a specification.
    spec fn registry(&self) -> Map<K, usize>;

    /// The tree has a head, its children follow their parents, and every
    /// registered slot names a node.
    spec fn ordered(&self) -> bool;

    /// In an ordered tree every child slot names a later node.
    proof fn lemma_children_follow(&self, i: int, c: int)
        requires
            self.ordered(),
            0 <= i < self.arena().len(),
            0 <= c < self.arena()[i].child_slots().len(),
        ensures
            i < self.arena()[i].child_slots()[c] < self.arena().len(),
    ;

    /// The head node.
    fn head(&self) -> (r: &Node)
        requires
            self.ordered(),
        ensures
            self.arena().len() > 0,
            *r == self.arena()[0],
    ;

    /// The node in slot `slot`, if there is one.
    fn node(&self, slot: usize) -> (r: Option<&Node>)
        ensures
            match r {
                Some(node) => slot < self.arena().len() && *node == self.arena()[slot as int],
                None => slot >= self.arena().len(),
            },
    ;

    /// The node registered under `node_id`, if there is one.
    fn get(&self, node_id: &K) -> (r: Option<&Node>)
        requires
            self.ordered(),
        ensures
            match r {
                Some(node) => self.registry().contains_key(*node_id) && self.registry()[*node_id]
                    < self.arena().len() && *node == self.arena()[self.registry()[*node_id] as int],
                None => !self.registry().contains_key(*node_id),
            },
    ;

    /// The number of ids that name a node.
    fn len(&self) -> (r: usize)
        requires
            self.ordered(),
        ensures
            r == self.registry().len(),
    ;

    /// Whether no id names a node.
    fn is_empty(&self) -> (r: bool)
        requires
            self.ordered(),
        ensures
            r == (self.registry().len() == 0),
    ;
}

/// A node of a `BasicTree`, to a specification.
pub struct BasicNodeView<V, K> {
    pub id: K,
    pub value: V,
    pub parent: Option<usize>,
    pub children: Seq<usize>,
}

/// A node of a `BasicTree`.
#[derive(Debug)]
pub struct BasicTreeNode<V, K> {
    id: K,
    parent: Option<usize>,
    value: V,
    nodes: Vec<usize>,
}

impl<V, K> View for BasicTreeNode<V, K> {
    type V = BasicNodeView<V, K>;

    closed spec fn view(&self) -> BasicNodeView<V, K> {
        BasicNodeView { id: self.id, value: self.value, parent: self.parent, children: self.nodes@ }
    }
}

impl<V, K> BasicTreeNode<V, K> {
    /// A childless node under the node in slot `parent`.
    pub fn new(id: K, parent: usize, value: V) -> (r: Self)
        ensures
            r@ == (BasicNodeView { id, value, parent: Some(parent), children: Seq::empty() }),
    {
        Self { id, parent: Some(parent), value, nodes: Vec::new() }
    }
}

impl<V, K> TreeNode<V, K> for BasicTreeNode<V, K> where K: Hash + Eq {
    open spec fn own_id(&self) -> K {
        self@.id
    }

    open spec fn own_value(&self) -> V {
        self@.value
    }

    open spec fn parent_slot(&self) -> Option<usize> {
        self@.parent
    }

    open spec fn child_slots(&self) -> Seq<usize> {
        self@.children
    }

    fn id(&self) -> (r: &K) {
        &self.id
    }

    fn value(&self) -> (r: &V) {
        &self.value
    }

    fn parent(&self) -> (r: Option<usize>) {
        self.parent
    }

    fn nodes(&self) -> (r: Vec<usize>) {
        self.nodes.clone()
    }
}

/// A `BasicTree`, to a specification.
#[verifier::reject_recursive_types(K)]
pub struct BasicTreeView<V, K> {
    /// The nodes, by slot; the head is in slot 0.
    pub nodes: Seq<BasicNodeView<V, K>>,
    /// The slot registered for each id.
    pub index: Map<K, usize>,
}

impl<V, K> BasicTreeView<V, K> {
    /// `i` names a node.
    pub open spec fn has(self, i: int) -> bool {
        0 <= i < self.nodes.len()
    }

    /// Node `i` comes after its parent, which lists it, and before its
    /// children, which point back at it. Only the head has no parent.
    pub open spec fn node_linked(self, i: int) -> bool {
        &&& match self.nodes[i].parent {
            None => i == 0,
            Some(p) => p < i && self.nodes[p as int].children.contains(i as usize),
        }
        &&& forall|c: int|
            0 <= c < self.nodes[i].children.len() ==> i < (#[trigger] self.nodes[i].children[c])
                < self.nodes.len() && self.nodes[self.nodes[i].children[c] as int].parent
                == Some(i as usize)
    }

    /// The tree has a head, its links are consistent, and the index leads to
    /// nodes that carry the id they are registered under.
    pub open spec fn wf(self) -> bool {
        &&& self.nodes.len() > 0
        &&& self.nodes[0].parent is None
        &&& forall|i: int| self.has(i) ==> #[trigger] self.node_linked(i)
        &&& forall|k: K| #[trigger]
            self.index.contains_key(k) ==> self.has(self.index[k] as int)
                && self.nodes[self.index[k] as int].id == k
    }
}

/// A tree in which a node is inserted under a parent named by id.
pub struct BasicTree<V, K> {
    arena: Vec<BasicTreeNode<V, K>>,
    tree: HashMap<K, usize>,
}

impl<V, K> View for BasicTree<V, K> {
    type V = BasicTreeView<V, K>;

    closed spec fn view(&self) -> BasicTreeView<V, K> {
        BasicTreeView {
            nodes: Seq::new(self.arena@.len(), |i: int| self.arena@[i]@),
            index: self.tree@,
        }
    }
}

impl<V, K> BasicTree<V, K> where K: Eq + Hash + Copy {
    /// The tree is consistent and its ids behave as hash keys should.
    pub open spec fn wf(&self) -> bool {
        &&& obeys_key_model::<K>()
        &&& self@.wf()
    }

    /// A tree of one node, which is its head.
    pub fn from_head(head_id: K, head_value: V) -> (r: Self)
        requires
            obeys_key_model::<K>(),
        ensures
            r.wf(),
            r@.nodes == seq![
                BasicNodeView {
                    id: head_id,
                    value: head_value,
                    parent: None,
                    children: Seq::empty(),
                },
            ],
            r@.index == Map::<K, usize>::empty().insert(head_id, 0),
    {
        let mut tree = HashMap::new();
        let mut arena = Vec::new();
        arena.push(BasicTreeNode { id: head_id, parent: None, value: head_value, nodes: Vec::new() });
        tree.insert(head_id, 0);
        let r = Self { arena, tree };
        proof {
            assert(r@.nodes =~= seq![
                BasicNodeView {
                    id: head_id,
                    value: head_value,
                    parent: None,
                    children: Seq::empty(),
                },
            ]);
            assert(r@.node_linked(0));
        }
        r
    }

    /// Adds a leaf with `value` under `id`, as the last child of the node
    /// registered under `parent_id`.
    pub fn insert(&mut self, id: K, parent_id: K, value: V)
        requires
            old(self).wf(),
            old(self)@.index.contains_key(parent_id),
        ensures
            final(self).wf(),
            final(self)@.index == old(self)@.index.insert(id, old(self)@.nodes.len() as usize),
            ({
                let parent = old(self)@.index[parent_id];
                let slot = old(self)@.nodes.len() as usize;
                final(self)@.nodes == old(self)@.nodes.update(
                    parent as int,
                    BasicNodeView {
                        children: old(self)@.nodes[parent as int].children.push(slot),
                        ..old(self)@.nodes[parent as int]
                    },
                ).push(BasicNodeView { id, value, parent: Some(parent), children: Seq::empty() })
            }),
    {
        let parent = *self.tree.get(&parent_id).unwrap();
        let slot = self.arena.len();
        proof {
            assert(old(self)@.has(parent as int));
        }
        let node = BasicTreeNode::new(id, parent, value);
        self.arena[parent].nodes.push(slot);
        self.arena.push(node);
        self.tree.insert(id, slot);
        proof {
            let s = old(self)@;
            let f = self@;
            let grown = BasicNodeView {
                children: s.nodes[parent as int].children.push(slot),
                ..s.nodes[parent as int]
            };
            assert(f.nodes =~= s.nodes.update(parent as int, grown).push(
                BasicNodeView { id, value, parent: Some(parent), children: Seq::empty() },
            ));
            assert forall|i: int| f.has(i) implies #[trigger] f.node_linked(i) by {
                if i < slot {
                    assert(s.node_linked(i));
                    match s.nodes[i].parent {
                        Some(p) => {
                            let w = choose|w: int|
                                0 <= w < s.nodes[p as int].children.len()
                                    && s.nodes[p as int].children[w] == i as usize;
                            assert(f.nodes[p as int].children[w] == i as usize);
                        },
                        None => {},
                    }
                    assert forall|c: int| 0 <= c < f.nodes[i].children.len() implies i < (
                    #[trigger] f.nodes[i].children[c]) < f.nodes.len()
                        && f.nodes[f.nodes[i].children[c] as int].parent == Some(i as usize) by {
                        if i == parent && c == s.nodes[i].children.len() {
                        } else {
                            assert(s.nodes[i].children[c] < s.nodes.len());
                        }
                    }
                } else {
                    assert(f.nodes[parent as int].children[s.nodes[parent as int].children.len() as int]
                        == slot);
                }
            }
            assert forall|k: K| #[trigger] f.index.contains_key(k) implies f.has(
                f.index[k] as int,
            ) && f.nodes[f.index[k] as int].id == k by {
                if k != id {
                    assert(s.index.contains_key(k));
                }
            }
        }
    }
}

impl<V, K> Tree<BasicTreeNode<V, K>, V, K> for BasicTree<V, K> where K: Eq + Hash + Copy {
    open spec fn arena(&self) -> Seq<BasicTreeNode<V, K>> {
        self.slots()
    }

    open spec fn registry(&self) -> Map<K, usize> {
        self@.index
    }

    open spec fn ordered(&self) -> bool {
        self.wf()
    }

    proof fn lemma_children_follow(&self, i: int, c: int) {
        self.lemma_slots();
        assert(self@.node_linked(i));
    }

    fn head(&self) -> (r: &BasicTreeNode<V, K>) {
        proof {
            self.lemma_slots();
        }
        &self.arena[0]
    }

    fn node(&self, slot: usize) -> (r: Option<&BasicTreeNode<V, K>>) {
        proof {
            self.lemma_slots();
        }
        if slot < self.arena.len() {
            Some(&self.arena[slot])
        } else {
            None
        }
    }

    fn get(&self, node_id: &K) -> (r: Option<&BasicTreeNode<V, K>>) {
        proof {
            self.lemma_slots();
        }
        match self.tree.get(node_id) {
            Some(slot) => {
                proof {
                    assert(self@.index.contains_key(*node_id));
                    assert(self@.has(*slot as int));
                }
                Some(&self.arena[*slot])
            },
            None => None,
        }
    }

    fn len(&self) -> (r: usize) {
        self.tree.len()
    }

    fn is_empty(&self) -> (r: bool) {
        self.tree.len() == 0
    }
}

impl<V, K> BasicTree<V, K> {
    /// The nodes of the tree, by slot.
    pub closed spec fn slots(&self) -> Seq<BasicTreeNode<V, K>> {
        self.arena@
    }

    /// The view lists what the nodes in the slots show.
    pub proof fn lemma_slots(&self)
        ensures
            self.slots().len() == self@.nodes.len(),
            self.slots().len() <= usize::MAX,
            forall|i: int| 0 <= i < self.slots().len() ==> (#[trigger] self.slots()[i])@
                == self@.nodes[i],
    {
        assert(self.arena.len() == self.arena@.len());
    }
}

} // verus!
