//! A self-balancing binary search tree kept in an arena.
//!
//! Nodes live in a vector and name each other by their slot in it. A hash map
//! from node id to slot gives constant-time lookup. Beside the executable
//! state the tree carries, as ghost data, its in-order listing and, for each
//! node, the range of in-order positions that the node's subtree occupies
//! (its *span*). All structural invariants are local statements over these.

use crate::data_structures::search_tree_model::{
    lemma_attach_at, lemma_grown, lemma_promoted, lemma_promoted_frame, lemma_same_shape,
    lemma_splits_unique, slot_view,
};
pub use crate::data_structures::search_tree_model::{Directions, NodeView, TreeView};
use crate::data_structures::search_tree_climb::{
    lemma_climb_step, lemma_climbed_all, lemma_rotated_double, lemma_rotated_single,
    lemma_rotation_ready,
};
use crate::order::{
    at_most, is_greater, lemma_at_most_chain, lemma_at_most_then_less, lemma_less_or_at_most,
    less, total_order,
};
use std::collections::HashMap;
use std::hash::Hash;
use vstd::prelude::*;
use vstd::std_specs::hash::obeys_key_model;

verus! {

/// A node of a `BinarySearchTree`: an id, a value, a balance counter, and
/// the slots of its parent and of its two children.
pub struct BinarySearchTreeNode<V, K> {
    id: K,
    value: V,
    one_side_depth: i32,
    parent: Option<usize>,
    nodes: [Option<usize>; 2],
}

impl<V, K> View for BinarySearchTreeNode<V, K> {
    type V = NodeView<V, K>;

    closed spec fn view(&self) -> NodeView<V, K> {
        NodeView {
            id: self.id,
            value: self.value,
            balance: self.one_side_depth as int,
            parent: slot_view(self.parent),
            left: slot_view(self.nodes[0]),
            right: slot_view(self.nodes[1]),
        }
    }
}

impl<V, K> BinarySearchTreeNode<V, K> {
    /// A childless node with balance 0.
    pub fn new(id: K, parent: Option<usize>, value: V) -> (r: Self)
        ensures
            r@ == (NodeView {
                id,
                value,
                balance: 0,
                parent: slot_view(parent),
                left: None,
                right: None,
            }),
    {
        Self { id, value, one_side_depth: 0, parent, nodes: [None, None] }
    }

    /// The child slots: left at 0, right at 1.
    pub fn nodes(&self) -> (r: &[Option<usize>; 2])
        ensures
            slot_view(r[0]) == self@.left,
            slot_view(r[1]) == self@.right,
    {
        &self.nodes
    }

    /// The id under which the node is registered.
    pub fn id(&self) -> (r: &K)
        ensures
            *r == self@.id,
    {
        &self.id
    }

    /// The value by which the node is ordered.
    pub fn value(&self) -> (r: &V)
        ensures
            *r == self@.value,
    {
        &self.value
    }

    /// The slot of the parent, `None` at the head of a tree.
    pub fn parent(&self) -> (r: Option<usize>)
        ensures
            slot_view(r) == self@.parent,
    {
        self.parent
    }

    /// The balance counter.
    pub fn balance(&self) -> (r: i32)
        ensures
            r == self@.balance,
    {
        self.one_side_depth
    }
}

/// Why an insertion was refused.
#[derive(Clone, Copy, Debug, PartialEq, Eq, Structural)]
pub enum InsertError {
    /// The id already names a node of the tree.
    DuplicateId,
}

/// A binary search tree that rotates itself back into balance when an
/// insertion tips a balance counter. Values that do not exceed the value of a
/// node go to its left, larger ones to its right.
pub struct BinarySearchTree<V, K> {
    head: usize,
    arena: Vec<BinarySearchTreeNode<V, K>>,
    tree: HashMap<K, usize>,
    order: Ghost<Seq<int>>,
    rank: Ghost<Seq<int>>,
    low: Ghost<Seq<int>>,
    high: Ghost<Seq<int>>,
}

impl<V, K> View for BinarySearchTree<V, K> {
    type V = TreeView<V, K>;

    closed spec fn view(&self) -> TreeView<V, K> {
        TreeView {
            head: self.head as int,
            nodes: Seq::new(self.arena@.len(), |i: int| self.arena@[i]@),
            index: Map::new(|k: K| self.tree@.contains_key(k), |k: K| self.tree@[k] as int),
            order: self.order@,
            rank: self.rank@,
            low: self.low@,
            high: self.high@,
        }
    }
}

impl<V, K> BinarySearchTree<V, K> where V: Ord, K: Eq + Hash + Copy {
    /// The tree is consistent, and its value and id types behave as an ordered
    /// type and a hash key should.
    pub open spec fn wf(&self) -> bool {
        &&& total_order::<V>()
        &&& obeys_key_model::<K>()
        &&& self@.wf()
    }

    /// A tree of one node, which is its head.
    pub fn from_head(head_id: K, head_value: V) -> (r: Self)
        requires
            total_order::<V>(),
            obeys_key_model::<K>(),
        ensures
            r.wf(),
            r@ == TreeView::singleton(head_id, head_value),
    {
        let mut tree = HashMap::new();
        let mut arena = Vec::new();
        arena.push(BinarySearchTreeNode::new(head_id, None, head_value));
        tree.insert(head_id, 0);
        let order: Ghost<Seq<int>> = Ghost(Seq::empty().push(0));
        let rank: Ghost<Seq<int>> = Ghost(Seq::empty().push(0));
        let low: Ghost<Seq<int>> = Ghost(Seq::empty().push(0));
        let high: Ghost<Seq<int>> = Ghost(Seq::empty().push(1));
        let r = Self { head: 0, arena, tree, order, rank, low, high };
        proof {
            let t = TreeView::singleton(head_id, head_value);
            assert(r@.nodes =~= t.nodes);
            assert(r@.index =~= t.index);
            assert(t.node_linked(0));
        }
        r
    }

    /// The head node.
    pub fn head(&self) -> (r: &BinarySearchTreeNode<V, K>)
        requires
            self.wf(),
        ensures
            r@ == self@.nodes[self@.head],
    {
        &self.arena[self.head]
    }

    /// The slot of the head node.
    pub fn head_slot(&self) -> (r: usize)
        requires
            self.wf(),
        ensures
            r == self@.head,
            self@.has(r as int),
    {
        self.head
    }

    /// The node in arena slot `slot`, if there is one.
    pub fn node(&self, slot: usize) -> (r: Option<&BinarySearchTreeNode<V, K>>)
        ensures
            match r {
                Some(n) => self@.has(slot as int) && n@ == self@.nodes[slot as int],
                None => !self@.has(slot as int),
            },
    {
        if slot < self.arena.len() {
            Some(&self.arena[slot])
        } else {
            None
        }
    }

    /// The node registered under `node_id`, if there is one.
    pub fn get(&self, node_id: &K) -> (r: Option<&BinarySearchTreeNode<V, K>>)
        requires
            self.wf(),
        ensures
            match r {
                Some(n) => self@.index.contains_key(*node_id) && n@ == self@.nodes[self@.index[*node_id]],
                None => !self@.index.contains_key(*node_id),
            },
    {
        match self.tree.get(node_id) {
            Some(slot) => {
                assert(self@.index.contains_key(*node_id));
                assert(self@.has(self@.index[*node_id]));
                Some(&self.arena[*slot])
            },
            None => None,
        }
    }

    /// The number of nodes.
    pub fn len(&self) -> (r: usize)
        requires
            self.wf(),
        ensures
            r == self@.len(),
            r == self@.index.dom().len(),
    {
        proof {
            self.lemma_index_dom();
        }
        self.arena.len()
    }

    /// Whether the tree has no node; a tree always has its head.
    pub fn is_empty(&self) -> (r: bool)
        requires
            self.wf(),
        ensures
            r == (self@.len() == 0),
            !r,
    {
        self.arena.len() == 0
    }

    /// Points the child link of node `i` on side `d` at `c`.
    fn set_child(&mut self, i: usize, d: Directions, c: Option<usize>)
        requires
            old(self)@.has(i as int),
        ensures
            final(self)@ == (TreeView {
                nodes: old(self)@.nodes.update(
                    i as int,
                    old(self)@.nodes[i as int].with_child(d, slot_view(c)),
                ),
                ..old(self)@
            }),
            final(self).arena@.len() == old(self).arena@.len(),
    {
        self.arena[i].nodes[d.index()] = c;
        proof {
            assert(self@.nodes =~= old(self)@.nodes.update(
                i as int,
                old(self)@.nodes[i as int].with_child(d, slot_view(c)),
            ));
        }
    }

    /// Points the parent link of node `i` at `parent`.
    fn set_parent(&mut self, i: usize, parent: Option<usize>)
        requires
            old(self)@.has(i as int),
        ensures
            final(self)@ == (TreeView {
                nodes: old(self)@.nodes.update(
                    i as int,
                    old(self)@.nodes[i as int].with_parent(slot_view(parent)),
                ),
                ..old(self)@
            }),
            final(self).arena@.len() == old(self).arena@.len(),
    {
        self.arena[i].parent = parent;
        proof {
            assert(self@.nodes =~= old(self)@.nodes.update(
                i as int,
                old(self)@.nodes[i as int].with_parent(slot_view(parent)),
            ));
        }
    }

    /// Sets the balance counter of node `i`.
    fn set_balance(&mut self, i: usize, balance: i32)
        requires
            old(self)@.has(i as int),
        ensures
            final(self)@ == (TreeView {
                nodes: old(self)@.nodes.update(
                    i as int,
                    old(self)@.nodes[i as int].with_balance(balance as int),
                ),
                ..old(self)@
            }),
            final(self).arena@.len() == old(self).arena@.len(),
    {
        self.arena[i].one_side_depth = balance;
        proof {
            assert(self@.nodes =~= old(self)@.nodes.update(
                i as int,
                old(self)@.nodes[i as int].with_balance(balance as int),
            ));
        }
    }

    /// The side of `parent` on which `child` hangs.
    fn get_directions(&self, parent: usize, child: usize) -> (r: Directions)
        requires
            self@.has(parent as int),
        ensures
            r == (if self@.nodes[parent as int].left == Some(child as int) {
                Directions::Left
            } else {
                Directions::Right
            }),
    {
        match self.arena[parent].nodes[0] {
            Some(left) => {
                if left == child {
                    Directions::Left
                } else {
                    Directions::Right
                }
            },
            None => Directions::Right,
        }
    }

    /// Lifts the child of `first` on side `direction` into the place of
    /// `first`, which becomes its child on the other side and adopts the
    /// subtree that hung there. Leaves every balance counter alone.
    fn promote(&mut self, first: usize, direction: Directions)
        requires
            old(self)@.linked(),
            old(self)@.has(first as int),
            old(self)@.nodes[first as int].child(direction) is Some,
        ensures
            final(self)@ == old(self)@.promoted(first as int, direction),
            final(self)@.linked(),
    {
        let ghost s = self@;
        let opposite = Directions::get_opposite(direction);
        proof {
            assert(s.node_linked(first as int));
            assert(s.child_linked(first as int, direction));
        }
        let second = self.arena[first].nodes[direction.index()].unwrap();
        proof {
            assert(s.node_linked(second as int));
            assert(s.child_linked(second as int, opposite));
        }
        let inner = self.arena[second].nodes[opposite.index()];
        let up = self.arena[first].parent;
        proof {
            assert(s.nodes[first as int].parent == slot_view(up));
            assert(s.nodes[second as int].child(opposite) == slot_view(inner));
        }
        match inner {
            Some(x) => {
                proof {
                    assert(s.node_linked(x as int));
                }
                self.set_parent(x, Some(first));
            },
            None => {},
        }
        self.set_child(first, direction, inner);
        self.set_child(second, opposite, Some(first));
        match up {
            None => {
                self.set_parent(second, None);
                self.head = second;
            },
            Some(g) => {
                proof {
                    assert(s.node_linked(g as int));
                }
                let side = self.get_directions(g, first);
                self.set_parent(second, Some(g));
                self.set_child(g, side, Some(second));
            },
        }
        self.set_parent(first, Some(second));
        self.low = Ghost(s.promoted_low(first as int, direction));
        self.high = Ghost(s.promoted_high(first as int, direction));
        proof {
            lemma_promoted(s, first as int, direction);
            assert(self@.nodes =~= s.promoted(first as int, direction).nodes);
            assert(self@ == s.promoted(first as int, direction));
        }
    }

    /// Rotates the child of `first_level_node` on the heavy side
    /// `balance_direction` into its place and resets the balance of both.
    fn simple_rotation(&mut self, first_level_node: usize, balance_direction: Directions)
        requires
            old(self)@.linked(),
            old(self)@.has(first_level_node as int),
            old(self)@.nodes[first_level_node as int].child(balance_direction) is Some,
        ensures
            final(self)@.linked(),
            final(self)@ == old(self)@.promoted(
                first_level_node as int,
                balance_direction,
            ).with_balances(
                old(self)@.single_balances(first_level_node as int, balance_direction),
            ),
    {
        let ghost s = self@;
        let ghost p = first_level_node as int;
        let second_level_node = self.arena[first_level_node].nodes[balance_direction.index()].unwrap();
        proof {
            assert(s.node_linked(p));
            assert(s.child_linked(p, balance_direction));
        }
        self.promote(first_level_node, balance_direction);
        let ghost s1 = self@;
        self.set_balance(second_level_node, 0);
        self.set_balance(first_level_node, 0);
        proof {
            let f = self@;
            let g = s.promoted(p, balance_direction).with_balances(
                s.single_balances(p, balance_direction),
            );
            lemma_promoted(s, p, balance_direction);
            assert(s1.nodes.len() == s.nodes.len());
            assert forall|i: int| 0 <= i < f.nodes.len() implies f.nodes[i] == g.nodes[i] by {
                assert(s.nodes[i].balance == s1.nodes[i].balance);
            }
            assert(f.nodes =~= g.nodes);
            assert(s1.same_shape(f));
            lemma_same_shape(s1, f);
        }
    }

    /// Straightens a bent heavy subtree under `first_level_node`: the child
    /// of its heavy child on the other side is rotated into the place of that
    /// child, and the balance counters are set for the rotation that follows.
    fn double_rotation(&mut self, first_level_node: usize, balance_direction: Directions)
        requires
            old(self)@.linked(),
            old(self)@.has(first_level_node as int),
            old(self)@.nodes[first_level_node as int].child(balance_direction) is Some,
            old(self)@.nodes[old(self)@.nodes[first_level_node as int].child(
                balance_direction,
            ).unwrap()].child(balance_direction.opposite()) is Some,
        ensures
            final(self)@.linked(),
            ({
                let s = old(self)@;
                let p = first_level_node as int;
                let c = s.nodes[p].child(balance_direction).unwrap();
                let g = s.nodes[c].child(balance_direction.opposite()).unwrap();
                &&& final(self)@ == s.promoted(c, balance_direction.opposite()).with_balances(
                    s.double_balances(p, balance_direction),
                )
                &&& final(self)@.nodes[p].child(balance_direction) == Some(g)
                &&& p != c && p != g && c != g
            }),
    {
        let ghost s = self@;
        let ghost p = first_level_node as int;
        let opposite_direction = Directions::get_opposite(balance_direction);
        let second_level_node = self.arena[first_level_node].nodes[balance_direction.index()].unwrap();
        proof {
            assert(s.node_linked(p));
            assert(s.child_linked(p, balance_direction));
            assert(s.node_linked(second_level_node as int));
            assert(s.child_linked(second_level_node as int, opposite_direction));
        }
        let third_level_node = self.arena[second_level_node].nodes[opposite_direction.index()].unwrap();
        proof {
            assert(s.node_linked(third_level_node as int));
        }
        self.set_balance(first_level_node, Directions::get_depth(balance_direction) * 2);
        self.set_balance(second_level_node, Directions::get_depth(balance_direction));
        self.set_balance(third_level_node, 0);
        let ghost s1 = self@;
        proof {
            assert(s.same_shape(s1));
            lemma_same_shape(s, s1);
        }
        self.promote(second_level_node, opposite_direction);
        proof {
            let f = self@;
            let c = second_level_node as int;
            let t = third_level_node as int;
            let g = s.promoted(c, opposite_direction).with_balances(
                s.double_balances(p, balance_direction),
            );
            lemma_promoted(s1, c, opposite_direction);
            lemma_promoted(s, c, opposite_direction);
            lemma_promoted_frame(s, s1, c, opposite_direction);
            let sp = s.promoted(c, opposite_direction);
            assert forall|i: int| 0 <= i < f.nodes.len() implies f.nodes[i] == g.nodes[i] by {
                assert(f.nodes[i] == sp.nodes[i].with_balance(f.nodes[i].balance));
                assert(s1.nodes[i].balance == f.nodes[i].balance);
            }
            assert(f.nodes =~= g.nodes);
            assert(s.child_side(p, c) == balance_direction);
        }
    }

    /// Counts the new leaf `inserted_node` into the balance counters of its
    /// ancestors, from its parent upwards, and rotates at the first ancestor
    /// that leaves {-1, 0, 1}.
    fn update_depth(&mut self, inserted_node: usize)
        requires
            old(self).wf(),
            old(self)@.has(inserted_node as int),
            old(self)@.nodes[inserted_node as int].balance == 0,
            old(self)@.nodes[inserted_node as int].left is None,
            old(self)@.nodes[inserted_node as int].right is None,
        ensures
            final(self).wf(),
            old(self)@.settled(inserted_node as int, final(self)@),
            old(self)@.same_contents(final(self)@),
    {
        let ghost m = self@;
        let ghost x = inserted_node as int;
        let mut parent_child = inserted_node;
        let mut parent = self.arena[inserted_node].parent;
        proof {
            assert(m.node_linked(x));
            assert(m.same_shape(self@));
            assert(m.child_linked(x, Directions::Left));
            assert(m.child_linked(x, Directions::Right));
            assert forall|i: int| m.is_ancestor(i, x) && m.covers(x, i) implies false by {
                assert(m.node_linked(i));
                assert(m.order[m.rank[i]] == i);
            }
        }
        loop
            invariant_except_break
                m.wf(),
                total_order::<V>(),
                obeys_key_model::<K>(),
                m.has(x),
                m.nodes[x].balance == 0,
                self@.balanced(),
                m.climbing(x, parent_child as int, self@),
                slot_view(parent) == m.nodes[parent_child as int].parent,
            ensures
                self.wf(),
                m.settled(x, self@),
                m.same_contents(self@),
            decreases m.len() - (m.high[parent_child as int] - m.low[parent_child as int]),
        {
            let ghost s = self@;
            let ghost ch = parent_child as int;
            proof {
                assert(m.node_linked(ch));
                lemma_same_shape(m, s);
                assert(s.nodes[ch] == m.nodes[ch].with_balance(s.nodes[ch].balance));
            }
            match parent {
                None => {
                    proof {
                        lemma_climbed_all(m, x, ch, s);
                    }
                    break ;
                },
                Some(parent_node) => {
                    let ghost pn = parent_node as int;
                    proof {
                        assert(m.node_linked(pn));
                        assert(m.child_linked(pn, Directions::Left));
                        assert(m.child_linked(pn, Directions::Right));
                        assert(s.nodes[pn] == m.nodes[pn].with_balance(s.nodes[pn].balance));
                    }
                    let direction = self.get_directions(parent_node, parent_child);
                    let additional_depth = Directions::get_depth(direction);
                    proof {
                        assert(direction == m.side(pn, x));
                        assert(m.nodes[pn].child(direction) == Some(ch));
                        assert(m.is_ancestor(pn, x));
                        assert(!m.covers(ch, pn));
                        assert(s.nodes[pn].balance == m.nodes[pn].balance);
                        assert(m.node_balanced(pn));
                        assert(s.node_balanced(ch));
                    }
                    let new_depth = self.arena[parent_node].one_side_depth + additional_depth;
                    let child_depth = self.arena[parent_child].one_side_depth;
                    self.set_balance(parent_node, new_depth);
                    let ghost s1 = self@;
                    proof {
                        assert(s.rebalanced_at(pn, s1));
                        assert(new_depth == m.climbed_balance(pn, x));
                        assert(child_depth == m.climbed_balance(ch, x));
                    }
                    let is_simple_rotation = new_depth >= 2 && child_depth >= 0 || new_depth <= -2
                        && child_depth <= 0;
                    let is_double_rotation = new_depth >= 2 && child_depth < 0 || new_depth <= -2
                        && child_depth > 0;
                    if is_simple_rotation {
                        proof {
                            assert(m.tips(pn, x));
                            assert(!m.zigzag(pn, x));
                            lemma_rotation_ready(m, x, pn, ch, s, s1);
                        }
                        self.simple_rotation(parent_node, direction);
                        proof {
                            lemma_rotated_single(m, x, pn, ch, s, s1, self@);
                        }
                        break ;
                    }
                    if is_double_rotation {
                        proof {
                            assert(m.tips(pn, x));
                            assert(m.zigzag(pn, x));
                            lemma_rotation_ready(m, x, pn, ch, s, s1);
                        }
                        self.double_rotation(parent_node, direction);
                        let ghost s2 = self@;
                        self.simple_rotation(parent_node, direction);
                        proof {
                            lemma_rotated_double(m, x, pn, ch, s, s1, s2, self@);
                        }
                        break ;
                    }
                    proof {
                        assert(!m.tips(pn, x));
                        lemma_climb_step(m, x, pn, ch, s, s1);
                    }
                    parent = self.arena[parent_node].parent;
                    parent_child = parent_node;
                },
            }
        }
    }

    /// Adds a node with `value` under `id`. The node is hung where an ordered
    /// walk from the head ends: left where `value` does not exceed a node's
    /// value, right otherwise. Then the balance counters along the way back
    /// are updated and, where one leaves {-1, 0, 1}, the tree is rotated.
    /// An id that is already registered is refused and the tree stays as it is.
    pub fn insert(&mut self, id: K, value: V) -> (r: Result<(), InsertError>)
        requires
            old(self).wf(),
        ensures
            final(self).wf(),
            match r {
                Ok(_) => {
                    &&& !old(self)@.index.contains_key(id)
                    &&& old(self)@.attach(id, value).settled(old(self)@.len(), final(self)@)
                    &&& old(self)@.grown_by(id, value, final(self)@)
                },
                Err(e) => {
                    &&& e == InsertError::DuplicateId
                    &&& old(self)@.index.contains_key(id)
                    &&& final(self)@ == old(self)@
                },
            },
    {
        if self.tree.contains_key(&id) {
            return Err(InsertError::DuplicateId);
        }
        let node = self.attach_leaf(id, value);
        self.update_depth(node);
        Ok(())
    }

    /// Walks from the head to the free side where `value` belongs and hangs
    /// a new leaf there. Returns the slot of the leaf.
    fn attach_leaf(&mut self, id: K, value: V) -> (slot: usize)
        requires
            old(self).wf(),
            !old(self)@.index.contains_key(id),
        ensures
            slot == old(self)@.len(),
            final(self)@ == old(self)@.attach(id, value),
            final(self).wf(),
            forall|f: TreeView<V, K>|
                #![trigger final(self)@.same_contents(f)]
                final(self)@.same_contents(f) ==> old(self)@.grown_by(id, value, f),
    {
        let mut cur = self.head;
        let mut direction = Directions::Left;
        loop
            invariant
                self.wf(),
                self@ == old(self)@,
                self@.has(cur as int),
                forall|q: int|
                    0 <= q < self@.low[cur as int] ==> less(#[trigger] self@.value_at(q), value),
                forall|q: int|
                    self@.high[cur as int] <= q < self@.len() ==> at_most(
                        value,
                        #[trigger] self@.value_at(q),
                    ),
                self@.high[cur as int] < self@.len()
                    ==> self@.nodes[self@.order[self@.high[cur as int]]].left is Some,
            ensures
                self@.free_at(
                    cur as int,
                    direction,
                    match direction {
                        Directions::Left => self@.rank[cur as int],
                        Directions::Right => self@.rank[cur as int] + 1,
                    },
                ),
                self@.splits(
                    match direction {
                        Directions::Left => self@.rank[cur as int],
                        Directions::Right => self@.rank[cur as int] + 1,
                    },
                    value,
                ),
                direction is Right ==> (self@.high[cur as int] < self@.len()
                    ==> self@.nodes[self@.order[self@.high[cur as int]]].left is Some),
            decreases self@.high[cur as int] - self@.low[cur as int],
        {
            let ghost t = self@;
            let ghost c = cur as int;
            proof {
                assert(t.node_linked(c));
                assert forall|q: int| 0 <= q <= t.rank[c] implies at_most(
                    #[trigger] t.value_at(q),
                    t.nodes[c].value,
                ) by {
                    if q < t.rank[c] {
                        assert(at_most(t.value_at(q), t.value_at(t.rank[c])));
                    }
                }
                assert forall|q: int| t.rank[c] <= q < t.len() implies at_most(
                    t.nodes[c].value,
                    #[trigger] t.value_at(q),
                ) by {
                    if q > t.rank[c] {
                        assert(at_most(t.value_at(t.rank[c]), t.value_at(q)));
                    }
                }
            }
            let node = &self.arena[cur];
            let goes_right = is_greater(&value, &node.value);
            proof {
                lemma_less_or_at_most(value, t.nodes[c].value);
                if goes_right {
                    assert forall|q: int| 0 <= q <= t.rank[c] implies less(
                        #[trigger] t.value_at(q),
                        value,
                    ) by {
                        lemma_at_most_then_less(t.value_at(q), t.nodes[c].value, value);
                    }
                } else {
                    assert forall|q: int| t.rank[c] <= q < t.len() implies at_most(
                        value,
                        #[trigger] t.value_at(q),
                    ) by {
                        lemma_at_most_chain(value, t.nodes[c].value, t.value_at(q));
                    }
                }
            }
            direction =
            if goes_right {
                Directions::Right
            } else {
                Directions::Left
            };
            match node.nodes[direction.index()] {
                None => {
                    break ;
                },
                Some(child) => {
                    proof {
                        assert(t.child_linked(c, direction));
                        assert(t.node_linked(child as int));
                    }
                    cur = child;
                },
            }
        }
        let ghost t = self@;
        let ghost p = match direction {
            Directions::Left => t.rank[cur as int],
            Directions::Right => t.rank[cur as int] + 1,
        };
        proof {
            assert(t.node_linked(cur as int));
            let q = t.position_for(value);
            assert(t.splits(q, value));
            lemma_splits_unique(t, p, q, value);
            if p < t.len() {
                assert(t.has(t.order[p]));
                assert(t.node_linked(t.order[p]));
            }
            assert(t.gap_parent(p) == cur as int);
            assert(t.gap_side(p) == direction);
            lemma_attach_at(t, id, value, p, cur as int, direction);
            assert forall|f: TreeView<V, K>|
                #![trigger t.attach(id, value).same_contents(f)]
                t.attach(id, value).same_contents(f) implies t.grown_by(id, value, f) by {
                lemma_grown(t, id, value, p, cur as int, direction, f);
            }
        }
        let slot = self.arena.len();
        self.arena.push(BinarySearchTreeNode::new(id, Some(cur), value));
        self.arena[cur].nodes[direction.index()] = Some(slot);
        self.tree.insert(id, slot);
        let ghost m = t.attach(id, value);
        self.order = Ghost(m.order);
        self.rank = Ghost(m.rank);
        self.low = Ghost(m.low);
        self.high = Ghost(m.high);
        proof {
            assert(self@.nodes =~= m.nodes);
            assert(self@.index =~= m.index);
        }
        slot
    }

    /// The index registers as many ids as the tree has nodes.
    proof fn lemma_index_dom(&self)
        requires
            self.wf(),
        ensures
            self@.index.dom().finite(),
            self@.index.dom().len() == self@.len(),
    {
        let t = self@;
        crate::data_structures::search_tree_model::lemma_index_size(t);
    }
}

} // verus!
