//! The mathematical model of the balanced search tree.
//!
//! A tree over `n` nodes is described by the nodes themselves, addressed by
//! slot, by the in-order listing of the slots, and by the *span* of each node:
//! the half-open range of in-order positions that its subtree occupies. A
//! node's left subtree occupies the part of its span before the node's own
//! position, its right subtree the part after it. Every structural invariant
//! is a statement about one node and its neighbours.

use crate::order::{at_most, lemma_less_or_at_most, less, total_order};
use vstd::prelude::*;

verus! {

/// The two child sides of a node.
#[derive(Clone, Copy, Debug)]
pub enum Directions {
    Left,
    Right,
}

impl Directions {
    /// The other side.
    pub open spec fn opposite(self) -> Directions {
        match self {
            Directions::Left => Directions::Right,
            Directions::Right => Directions::Left,
        }
    }

    /// What one more node on this side adds to a balance counter.
    pub open spec fn depth(self) -> int {
        match self {
            Directions::Left => -1,
            Directions::Right => 1,
        }
    }

    /// The child slot of this side: 0 for left, 1 for right.
    pub open spec fn slot(self) -> int {
        match self {
            Directions::Left => 0,
            Directions::Right => 1,
        }
    }

    /// The side opposite to `direction`.
    pub fn get_opposite(direction: Directions) -> (r: Directions)
        ensures
            r == direction.opposite(),
    {
        match direction {
            Directions::Left => Directions::Right,
            Directions::Right => Directions::Left,
        }
    }

    /// What one more node on side `direction` adds to a balance counter.
    pub fn get_depth(direction: Directions) -> (r: i32)
        ensures
            r == direction.depth(),
    {
        match direction {
            Directions::Left => -1,
            Directions::Right => 1,
        }
    }

    /// The child slot of this side.
    pub fn index(self) -> (r: usize)
        ensures
            r == self.slot(),
    {
        match self {
            Directions::Left => 0,
            Directions::Right => 1,
        }
    }
}

/// What a node is, to a specification.
pub struct NodeView<V, K> {
    pub id: K,
    pub value: V,
    pub balance: int,
    pub parent: Option<int>,
    pub left: Option<int>,
    pub right: Option<int>,
}

impl<V, K> NodeView<V, K> {
    /// The child on side `d`.
    pub open spec fn child(self, d: Directions) -> Option<int> {
        match d {
            Directions::Left => self.left,
            Directions::Right => self.right,
        }
    }

    /// This node with its balance counter replaced.
    pub open spec fn with_balance(self, balance: int) -> Self {
        NodeView { balance, ..self }
    }

    /// This node with the child on side `d` replaced.
    pub open spec fn with_child(self, d: Directions, child: Option<int>) -> Self {
        match d {
            Directions::Left => NodeView { left: child, ..self },
            Directions::Right => NodeView { right: child, ..self },
        }
    }

    /// This node with its parent link replaced.
    pub open spec fn with_parent(self, parent: Option<int>) -> Self {
        NodeView { parent, ..self }
    }
}

/// An arena slot, or its absence, as a mathematical integer.
pub open spec fn slot_view(slot: Option<usize>) -> Option<int> {
    match slot {
        Some(s) => Some(s as int),
        None => None,
    }
}

/// What a tree is, to a specification.
#[verifier::reject_recursive_types(K)]
pub struct TreeView<V, K> {
    /// The slot of the head node.
    pub head: int,
    /// The nodes, by slot.
    pub nodes: Seq<NodeView<V, K>>,
    /// The slot registered for each id.
    pub index: Map<K, int>,
    /// The slots in in-order.
    pub order: Seq<int>,
    /// For each slot, its position in `order`.
    pub rank: Seq<int>,
    /// For each slot, the first position of its subtree.
    pub low: Seq<int>,
    /// For each slot, the position just past its subtree.
    pub high: Seq<int>,
}

impl<V, K> TreeView<V, K> {
    /// The tree of one node.
    pub open spec fn singleton(id: K, value: V) -> Self {
        TreeView {
            head: 0,
            nodes: seq![
                NodeView { id, value, balance: 0, parent: None, left: None, right: None },
            ],
            index: map![id => 0int],
            order: seq![0int],
            rank: seq![0int],
            low: seq![0int],
            high: seq![1int],
        }
    }

    /// The number of nodes.
    pub open spec fn len(self) -> int {
        self.nodes.len() as int
    }

    /// `i` names a node.
    pub open spec fn has(self, i: int) -> bool {
        0 <= i < self.len()
    }

    /// The value at in-order position `p`.
    pub open spec fn value_at(self, p: int) -> V {
        self.nodes[self.order[p]].value
    }

    /// The values in in-order.
    pub open spec fn values(self) -> Seq<V> {
        Seq::new(self.nodes.len(), |p: int| self.value_at(p))
    }

    /// The subtree of `a` holds `x`.
    pub open spec fn covers(self, a: int, x: int) -> bool {
        self.low[a] <= self.rank[x] < self.high[a]
    }

    /// `a` is a proper ancestor of `x`.
    pub open spec fn is_ancestor(self, a: int, x: int) -> bool {
        self.has(a) && a != x && self.covers(a, x)
    }

    /// The side of `a` on which `x` lies.
    pub open spec fn side(self, a: int, x: int) -> Directions {
        if self.rank[x] < self.rank[a] {
            Directions::Left
        } else {
            Directions::Right
        }
    }

    /// The span of the child of `i` on side `d` is the part of the span of `i`
    /// on that side of `i`, and the child points back at `i`.
    pub open spec fn child_linked(self, i: int, d: Directions) -> bool {
        match self.nodes[i].child(d) {
            None => match d {
                Directions::Left => self.low[i] == self.rank[i],
                Directions::Right => self.rank[i] + 1 == self.high[i],
            },
            Some(c) => {
                &&& self.has(c)
                &&& self.nodes[c].parent == Some(i)
                &&& match d {
                    Directions::Left => self.low[c] == self.low[i] && self.high[c] == self.rank[i],
                    Directions::Right => self.low[c] == self.rank[i] + 1 && self.high[c]
                        == self.high[i],
                }
            },
        }
    }

    /// Node `i` sits inside its span, is listed at its rank, agrees with both
    /// children, and is a child of its parent.
    pub open spec fn node_linked(self, i: int) -> bool {
        &&& 0 <= self.low[i] <= self.rank[i] < self.high[i] <= self.len()
        &&& self.order[self.rank[i]] == i
        &&& self.child_linked(i, Directions::Left)
        &&& self.child_linked(i, Directions::Right)
        &&& match self.nodes[i].parent {
            None => i == self.head,
            Some(p) => self.has(p) && (self.nodes[p].left == Some(i) || self.nodes[p].right
                == Some(i)),
        }
    }

    /// Parent and child links are consistent, and `order` is the in-order
    /// listing of the tree under `head`.
    pub open spec fn linked(self) -> bool {
        &&& self.order.len() == self.len()
        &&& self.rank.len() == self.len()
        &&& self.low.len() == self.len()
        &&& self.high.len() == self.len()
        &&& self.has(self.head)
        &&& self.nodes[self.head].parent is None
        &&& self.low[self.head] == 0
        &&& self.high[self.head] == self.len()
        &&& forall|i: int| self.has(i) ==> #[trigger] self.node_linked(i)
        &&& forall|p: int|
            0 <= p < self.len() ==> self.has(#[trigger] self.order[p]) && self.rank[self.order[p]]
                == p
    }

    /// The in-order listing never descends.
    pub open spec fn sorted(self) -> bool
        where V: PartialOrd
    {
        forall|p: int, q: int|
            0 <= p < q < self.len() ==> at_most(#[trigger] self.value_at(p), #[trigger] self.value_at(q))
    }

    /// The balance counter of `i` is -1, 0 or 1.
    pub open spec fn node_balanced(self, i: int) -> bool {
        -1 <= self.nodes[i].balance <= 1
    }

    /// Every balance counter is -1, 0 or 1.
    pub open spec fn balanced(self) -> bool {
        forall|i: int| self.has(i) ==> #[trigger] self.node_balanced(i)
    }

    /// The index maps exactly the ids of the nodes, each to its node's slot.
    pub open spec fn indexed(self) -> bool {
        &&& forall|i: int|
            self.has(i) ==> self.index.contains_key(#[trigger] self.nodes[i].id)
                && self.index[self.nodes[i].id] == i
        &&& forall|k: K| #[trigger]
            self.index.contains_key(k) ==> self.has(self.index[k]) && self.nodes[self.index[k]].id
                == k
    }

    /// Position `p` divides the in-order listing into the values below
    /// `value` and the values that `value` does not exceed.
    pub open spec fn splits(self, p: int, value: V) -> bool
        where V: PartialOrd
    {
        &&& 0 <= p <= self.len()
        &&& forall|q: int| 0 <= q < p ==> less(#[trigger] self.value_at(q), value)
        &&& forall|q: int| p <= q < self.len() ==> at_most(value, #[trigger] self.value_at(q))
    }

    /// The in-order position that a new node with `value` takes: just before
    /// the first value that `value` does not exceed.
    pub open spec fn position_for(self, value: V) -> int
        where V: PartialOrd
    {
        choose|p: int| self.splits(p, value)
    }

    /// Node `c` has no child on side `d`, and a node placed there would take
    /// in-order position `p`.
    pub open spec fn free_at(self, c: int, d: Directions, p: int) -> bool {
        &&& self.has(c)
        &&& self.nodes[c].child(d) is None
        &&& match d {
            Directions::Left => p == self.rank[c],
            Directions::Right => p == self.rank[c] + 1,
        }
    }

    /// The node under which a new node at in-order position `p` hangs: the
    /// node now at `p` if its left side is free, else the node before it.
    pub open spec fn gap_parent(self, p: int) -> int {
        if p < self.len() && self.nodes[self.order[p]].left is None {
            self.order[p]
        } else {
            self.order[p - 1]
        }
    }

    /// The side of `gap_parent(p)` on which the new node hangs.
    pub open spec fn gap_side(self, p: int) -> Directions {
        if p < self.len() && self.nodes[self.order[p]].left is None {
            Directions::Left
        } else {
            Directions::Right
        }
    }

    /// The tree with a new leaf in slot `len()`, at in-order position `p`,
    /// as the child of `c` on side `d`. Positions from `p` on move up by one,
    /// and the spans of the ancestors of the leaf grow by one.
    pub open spec fn attach_at(self, id: K, value: V, p: int, c: int, d: Directions) -> Self {
        let x = self.len();
        let a = self.rank[c];
        TreeView {
            head: self.head,
            nodes: self.nodes.update(c, self.nodes[c].with_child(d, Some(x))).push(
                NodeView { id, value, balance: 0, parent: Some(c), left: None, right: None },
            ),
            index: self.index.insert(id, x),
            order: Seq::new(
                (x + 1) as nat,
                |q: int|
                    if q < p {
                        self.order[q]
                    } else if q == p {
                        x
                    } else {
                        self.order[q - 1]
                    },
            ),
            rank: Seq::new(
                (x + 1) as nat,
                |i: int|
                    if i == x {
                        p
                    } else if self.rank[i] >= p {
                        self.rank[i] + 1
                    } else {
                        self.rank[i]
                    },
            ),
            low: Seq::new(
                (x + 1) as nat,
                |i: int|
                    if i == x {
                        p
                    } else if self.low[i] > a {
                        self.low[i] + 1
                    } else {
                        self.low[i]
                    },
            ),
            high: Seq::new(
                (x + 1) as nat,
                |i: int|
                    if i == x {
                        p + 1
                    } else if self.high[i] > a {
                        self.high[i] + 1
                    } else {
                        self.high[i]
                    },
            ),
        }
    }

    /// The tree with a new leaf for `value`, registered under `id`, before
    /// any balance counter is touched.
    pub open spec fn attach(self, id: K, value: V) -> Self
        where V: PartialOrd
    {
        let p = self.position_for(value);
        self.attach_at(id, value, p, self.gap_parent(p), self.gap_side(p))
    }

    /// The first positions of all spans after the child of `p` on side `d`
    /// has taken the place of `p`, and `p` has become its child on the other
    /// side. The promoted node inherits the span of `p`; `p` keeps what lies
    /// on its own side of the promoted node.
    pub open spec fn promoted_low(self, p: int, d: Directions) -> Seq<int> {
        let c = self.nodes[p].child(d).unwrap();
        let low = self.low.update(c, self.low[p]);
        match d {
            Directions::Left => low.update(p, self.rank[c] + 1),
            Directions::Right => low,
        }
    }

    /// The end positions of all spans after the same promotion.
    pub open spec fn promoted_high(self, p: int, d: Directions) -> Seq<int> {
        let c = self.nodes[p].child(d).unwrap();
        let high = self.high.update(c, self.high[p]);
        match d {
            Directions::Left => high,
            Directions::Right => high.update(p, self.rank[c]),
        }
    }

    /// The side of `g` on which its child `i` hangs.
    pub open spec fn child_side(self, g: int, i: int) -> Directions {
        if self.nodes[g].left == Some(i) {
            Directions::Left
        } else {
            Directions::Right
        }
    }

    /// The tree after the child of `p` on side `d` has taken the place of
    /// `p`: the links of the two nodes, of the subtree that changes hands and
    /// of the node above them are redirected, and the spans follow.
    pub open spec fn promoted(self, p: int, d: Directions) -> Self {
        let o = d.opposite();
        let c = self.nodes[p].child(d).unwrap();
        let inner = self.nodes[c].child(o);
        let up = self.nodes[p].parent;
        let n1 = match inner {
            Some(x) => self.nodes.update(x, self.nodes[x].with_parent(Some(p))),
            None => self.nodes,
        };
        let n2 = n1.update(p, self.nodes[p].with_child(d, inner).with_parent(Some(c)));
        let n3 = n2.update(c, self.nodes[c].with_child(o, Some(p)).with_parent(up));
        let n4 = match up {
            Some(g) => n3.update(g, self.nodes[g].with_child(self.child_side(g, p), Some(c))),
            None => n3,
        };
        TreeView {
            head: if up is None {
                c
            } else {
                self.head
            },
            nodes: n4,
            low: self.promoted_low(p, d),
            high: self.promoted_high(p, d),
            ..self
        }
    }

    /// `other` has the nodes of `self` with, in each, the same id and value.
    pub open spec fn same_contents(self, other: Self) -> bool {
        &&& self.nodes.len() == other.nodes.len()
        &&& self.index == other.index
        &&& self.order == other.order
        &&& self.rank == other.rank
        &&& forall|i: int|
            self.has(i) ==> (#[trigger] self.nodes[i]).id == other.nodes[i].id
                && self.nodes[i].value == other.nodes[i].value
    }

    /// `other` has the balance counters of `self`.
    pub open spec fn same_balances(self, other: Self) -> bool {
        forall|i: int| self.has(i) ==> (#[trigger] self.nodes[i]).balance == other.nodes[i].balance
    }

    /// This tree with the balance counter of each node `i` set to `f(i)`.
    pub open spec fn with_balances(self, f: spec_fn(int) -> int) -> Self {
        TreeView {
            nodes: Seq::new(self.nodes.len(), |i: int| self.nodes[i].with_balance(f(i))),
            ..self
        }
    }

    /// `other` is this tree up to its balance counters.
    pub open spec fn same_shape(self, other: Self) -> bool {
        &&& self.head == other.head
        &&& self.nodes.len() == other.nodes.len()
        &&& self.index == other.index
        &&& self.order == other.order
        &&& self.rank == other.rank
        &&& self.low == other.low
        &&& self.high == other.high
        &&& forall|i: int|
            self.has(i) ==> #[trigger] other.nodes[i] == self.nodes[i].with_balance(
                other.nodes[i].balance,
            )
    }

    /// `a` is an ancestor of `x` whose balance counter already leans to the
    /// side of `x`: one more node there takes it out of {-1, 0, 1}.
    pub open spec fn tips(self, a: int, x: int) -> bool {
        self.is_ancestor(a, x) && self.nodes[a].balance == self.side(a, x).depth()
    }

    /// The balance counter of `a` once a new leaf `x` has been counted in:
    /// every ancestor of `x` moves by one towards the side of `x`.
    pub open spec fn climbed_balance(self, a: int, x: int) -> int {
        if self.is_ancestor(a, x) {
            self.nodes[a].balance + self.side(a, x).depth()
        } else {
            self.nodes[a].balance
        }
    }

    /// `p` is the lowest ancestor of `x` that tips.
    pub open spec fn is_pivot(self, p: int, x: int) -> bool {
        &&& self.tips(p, x)
        &&& forall|b: int| #[trigger] self.tips(b, x) && self.covers(p, b) ==> b == p
    }

    /// The tree once the new leaf `x` has been counted into all its ancestors.
    pub open spec fn climbed(self, x: int) -> Self {
        self.with_balances(|i: int| self.climbed_balance(i, x))
    }

    /// The heavy subtree under pivot `p` bends: the child of `p` towards `x`
    /// leans, once `x` is counted in, away from the side it hangs on.
    pub open spec fn zigzag(self, p: int, x: int) -> bool {
        let d = self.side(p, x);
        let c = self.nodes[p].child(d).unwrap();
        self.climbed_balance(c, x) == -d.depth()
    }

    /// The node that a rotation at pivot `p` puts in its place: the child of
    /// `p` towards `x`, or, where the heavy subtree bends, that child's child
    /// on the other side.
    pub open spec fn rotation_top(self, p: int, x: int) -> int {
        let d = self.side(p, x);
        let c = self.nodes[p].child(d).unwrap();
        if self.zigzag(p, x) {
            self.nodes[c].child(d.opposite()).unwrap()
        } else {
            c
        }
    }

    /// The tree once the new leaf `x` has been counted into its ancestors
    /// below pivot `p` and the imbalance at `p` has been rotated away: one
    /// promotion where the heavy subtree is straight, two where it bends.
    /// The pivot and the node that replaces it end with balance 0; after a
    /// double rotation the node between them leans to the heavy side.
    pub open spec fn rotated(self, x: int, p: int) -> Self {
        let d = self.side(p, x);
        let c = self.nodes[p].child(d).unwrap();
        let top = self.rotation_top(p, x);
        let shape = if self.zigzag(p, x) {
            self.promoted(c, d.opposite()).promoted(p, d)
        } else {
            self.promoted(p, d)
        };
        shape.with_balances(
            |i: int|
                if i == p || i == top {
                    0
                } else if i == c {
                    d.depth()
                } else if self.covers(p, i) {
                    self.climbed_balance(i, x)
                } else {
                    self.nodes[i].balance
                },
        )
    }

    /// `f` is this tree after the balance counters have taken in the new
    /// leaf `x`: with no tipping ancestor all ancestors are adjusted and the
    /// shape stays; otherwise the ancestors below the pivot are adjusted and
    /// the pivot is rotated.
    pub open spec fn settled(self, x: int, f: Self) -> bool {
        if exists|a: int| self.tips(a, x) {
            exists|p: int| #[trigger] self.is_pivot(p, x) && f == self.rotated(x, p)
        } else {
            f == self.climbed(x)
        }
    }

    /// `s` is this tree part-way through counting in the new leaf `x`: the
    /// ancestors of `x` from its parent up to `ch` have been adjusted, none
    /// of them tipped, and nothing else has changed.
    pub open spec fn climbing(self, x: int, ch: int, s: Self) -> bool {
        &&& self.same_shape(s)
        &&& self.has(ch)
        &&& self.covers(ch, x)
        &&& forall|i: int|
            self.has(i) ==> (#[trigger] s.nodes[i]).balance == (if self.is_ancestor(i, x)
                && self.covers(ch, i) {
                self.climbed_balance(i, x)
            } else {
                self.nodes[i].balance
            })
        &&& forall|i: int|
            self.is_ancestor(i, x) && self.covers(ch, i) ==> !#[trigger] self.tips(i, x)
    }

    /// `s1` is `s` with the balance counter of `p` replaced.
    pub open spec fn rebalanced_at(self, p: int, s1: Self) -> bool {
        &&& self.same_shape(s1)
        &&& forall|i: int|
            self.has(i) && i != p ==> (#[trigger] s1.nodes[i]).balance == self.nodes[i].balance
    }

    /// The balance counters that a single rotation at `p` towards `d` leaves.
    pub open spec fn single_balances(self, p: int, d: Directions) -> spec_fn(int) -> int {
        |i: int|
            if i == p || Some(i) == self.nodes[p].child(d) {
                0
            } else {
                self.nodes[i].balance
            }
    }

    /// The balance counters that the first half of a double rotation at `p`
    /// towards `d` leaves.
    pub open spec fn double_balances(self, p: int, d: Directions) -> spec_fn(int) -> int {
        let c = self.nodes[p].child(d).unwrap();
        let g = self.nodes[c].child(d.opposite()).unwrap();
        |i: int|
            if i == p {
                2 * d.depth()
            } else if i == c {
                d.depth()
            } else if i == g {
                0
            } else {
                self.nodes[i].balance
            }
    }

    /// `f` is this tree with one more node, in the next free slot: `value`
    /// under `id`, listed just before the first value that `value` does not
    /// exceed. Ids, values and index entries of the other nodes are the same.
    pub open spec fn grown_by(self, id: K, value: V, f: Self) -> bool
        where V: PartialOrd
    {
        let x = self.len();
        let p = self.position_for(value);
        &&& self.splits(p, value)
        &&& f.len() == x + 1
        &&& f.index == self.index.insert(id, x)
        &&& f.nodes[x].id == id
        &&& f.nodes[x].value == value
        &&& forall|i: int|
            self.has(i) ==> (#[trigger] f.nodes[i]).id == self.nodes[i].id && f.nodes[i].value
                == self.nodes[i].value
        &&& f.order == self.order.insert(p, x)
        &&& f.values() == self.values().insert(p, value)
    }

    /// The invariant of a tree between operations.
    pub open spec fn wf(self) -> bool
        where V: PartialOrd
    {
        &&& self.linked()
        &&& self.sorted()
        &&& self.balanced()
        &&& self.indexed()
    }
}

/// An indexed tree registers as many ids as it has nodes.
pub proof fn lemma_index_size<V, K>(t: TreeView<V, K>)
    requires
        t.indexed(),
    ensures
        t.index.dom().finite(),
        t.index.dom().len() == t.len(),
{
    let slots = Set::new(|i: int| 0 <= i < t.len());
    vstd::set_lib::lemma_int_range(0, t.len());
    assert(slots =~= vstd::set_lib::set_int_range(0, t.len()));
    let ids = t.index.dom();
    let to_id = |i: int| t.nodes[i].id;
    assert(slots.map(to_id) =~= ids) by {
        assert forall|k: K| ids.contains(k) implies slots.map(to_id).contains(k) by {
            assert(slots.contains(t.index[k]));
            assert(to_id(t.index[k]) == k);
        }
    }
    assert(vstd::relations::injective_on(to_id, slots)) by {
        assert forall|i: int, j: int|
            slots.contains(i) && slots.contains(j) && to_id(i) == to_id(j) implies i == j by {
            assert(t.index[t.nodes[i].id] == i);
            assert(t.index[t.nodes[j].id] == j);
        }
    }
    vstd::set_lib::lemma_map_size(slots, ids, to_id);
}

/// At most one position splits a sorted listing around a value.
pub proof fn lemma_splits_unique<V: PartialOrd, K>(t: TreeView<V, K>, p: int, q: int, value: V)
    requires
        total_order::<V>(),
        t.splits(p, value),
        t.splits(q, value),
    ensures
        p == q,
{
    if p < q {
        assert(less(t.value_at(p), value));
        assert(at_most(value, t.value_at(p)));
        lemma_less_or_at_most(t.value_at(p), value);
    }
    if q < p {
        assert(less(t.value_at(q), value));
        assert(at_most(value, t.value_at(q)));
        lemma_less_or_at_most(t.value_at(q), value);
    }
}

/// Hanging a new leaf on a free side keeps the tree consistent.
pub proof fn lemma_attach_at<V: PartialOrd, K>(
    t: TreeView<V, K>,
    id: K,
    value: V,
    p: int,
    c: int,
    d: Directions,
)
    requires
        total_order::<V>(),
        t.wf(),
        !t.index.contains_key(id),
        t.splits(p, value),
        t.free_at(c, d, p),
    ensures
        t.attach_at(id, value, p, c, d).wf(),
{
    let m = t.attach_at(id, value, p, c, d);
    let x = t.len();
    assert(t.node_linked(c));
    assert forall|i: int| m.has(i) implies #[trigger] m.node_linked(i) by {
        if i < x {
            assert(t.node_linked(i));
            if t.rank[i] == t.rank[c] {
                assert(t.order[t.rank[i]] == i);
            }
            match t.nodes[i].parent {
                Some(up) => {
                    assert(t.node_linked(up));
                },
                None => {},
            }
            assert(m.child_linked(i, Directions::Left));
            assert(m.child_linked(i, Directions::Right));
        } else {
            assert(m.child_linked(i, Directions::Left));
            assert(m.child_linked(i, Directions::Right));
        }
    }
    assert forall|q: int| 0 <= q < m.len() implies m.has(#[trigger] m.order[q])
        && m.rank[m.order[q]] == q by {
        if q < p {
            assert(t.has(t.order[q]));
        } else if q > p {
            assert(t.has(t.order[q - 1]));
        }
    }
    assert(t.node_linked(t.head));
    assert(m.linked());
    assert forall|q: int, r: int| 0 <= q < r < m.len() implies at_most(
        #[trigger] m.value_at(q),
        #[trigger] m.value_at(r),
    ) by {
        let tq = if q < p { q } else { q - 1 };
        let tr = if r < p { r } else { r - 1 };
        if q != p {
            assert(t.has(t.order[tq]));
            assert(m.value_at(q) == t.value_at(tq));
        }
        if r != p {
            assert(t.has(t.order[tr]));
            assert(m.value_at(r) == t.value_at(tr));
        }
        if q == p {
            assert(m.value_at(q) == value);
        } else if r == p {
            assert(m.value_at(r) == value);
        }
    }
    assert forall|i: int| m.has(i) implies #[trigger] m.node_balanced(i) by {
        if i < x {
            assert(t.node_balanced(i));
        }
    }
    assert forall|i: int| m.has(i) implies m.index.contains_key(#[trigger] m.nodes[i].id)
        && m.index[m.nodes[i].id] == i by {
        if i < x {
            assert(t.index.contains_key(t.nodes[i].id));
        }
    }
    assert forall|k: K| #[trigger] m.index.contains_key(k) implies m.has(m.index[k])
        && m.nodes[m.index[k]].id == k by {
        if k != id {
            assert(t.index.contains_key(k));
        }
    }
}

/// A promotion keeps the links consistent and moves no node in the in-order
/// listing.
pub proof fn lemma_promoted<V, K>(s: TreeView<V, K>, p: int, d: Directions)
    requires
        s.linked(),
        s.has(p),
        s.nodes[p].child(d) is Some,
    ensures
        s.promoted(p, d).linked(),
        s.same_contents(s.promoted(p, d)),
        s.same_balances(s.promoted(p, d)),
        s.promoted(p, d).nodes[p].parent == s.nodes[p].child(d),
        s.promoted(p, d).head == (if s.head == p {
            s.nodes[p].child(d).unwrap()
        } else {
            s.head
        }),
        s.nodes[p].parent matches Some(g) ==> s.promoted(p, d).nodes[g] == s.nodes[g].with_child(
            s.child_side(g, p),
            s.nodes[p].child(d),
        ),
{
    let f = s.promoted(p, d);
    let o = d.opposite();
    let c = s.nodes[p].child(d).unwrap();
    let inner = s.nodes[c].child(o);
    let up = s.nodes[p].parent;
    assert(s.node_linked(p));
    assert(s.child_linked(p, d));
    assert(s.child_linked(p, o));
    assert(s.node_linked(c));
    assert(s.child_linked(c, o));
    assert(s.child_linked(c, d));
    assert(s.node_linked(s.head));
    assert(p != c);
    assert(inner != Some(p) && inner != Some(c));
    match inner {
        Some(x) => {
            assert(s.node_linked(x));
        },
        None => {},
    }
    match up {
        Some(g) => {
            assert(s.node_linked(g));
            assert(s.child_linked(g, Directions::Left));
            assert(s.child_linked(g, Directions::Right));
            assert(g != p && g != c && inner != Some(g));
            assert(s.nodes[g].child(s.child_side(g, p)) == Some(p));
            assert(s.nodes[g].child(s.child_side(g, p).opposite()) != Some(p));
        },
        None => {
            assert(p == s.head);
        },
    }
    assert(f.nodes.len() == s.nodes.len());
    assert(f.nodes[p] == s.nodes[p].with_child(d, inner).with_parent(Some(c)));
    assert(f.nodes[c] == s.nodes[c].with_child(o, Some(p)).with_parent(up));
    assert(inner matches Some(x) ==> f.nodes[x] == s.nodes[x].with_parent(Some(p)));
    assert(up matches Some(g) ==> f.nodes[g] == s.nodes[g].with_child(
        s.child_side(g, p),
        Some(c),
    ));
    assert forall|i: int| s.has(i) && i != p && i != c && inner != Some(i) && up != Some(
        i,
    ) implies #[trigger] f.nodes[i] == s.nodes[i] by {}
    assert forall|i: int| s.has(i) && i != p && i != c implies f.low[i] == s.low[i] && f.high[i]
        == s.high[i] by {}
    assert(f.node_linked(p)) by {
        assert(f.child_linked(p, d));
        assert(f.child_linked(p, o));
    }
    assert(f.node_linked(c)) by {
        assert(f.child_linked(c, d)) by {
            match s.nodes[c].child(d) {
                Some(y) => {
                    assert(s.node_linked(y));
                    assert(y != p && y != c && inner != Some(y) && up != Some(y));
                },
                None => {},
            }
        }
        assert(f.child_linked(c, o));
    }
    assert forall|i: int| f.has(i) && i != p && i != c implies #[trigger] f.node_linked(i) by {
        lemma_promoted_other(s, p, d, i);
    }
    assert forall|q: int| 0 <= q < f.len() implies f.has(#[trigger] f.order[q])
        && f.rank[f.order[q]] == q by {
        assert(s.has(s.order[q]));
    }
}

/// After a promotion at `p`, a node other than `p` and the promoted node is
/// still consistent with its neighbours.
proof fn lemma_promoted_other<V, K>(s: TreeView<V, K>, p: int, d: Directions, i: int)
    requires
        s.linked(),
        s.has(p),
        s.nodes[p].child(d) is Some,
        s.has(i),
        i != p,
        i != s.nodes[p].child(d).unwrap(),
    ensures
        s.promoted(p, d).node_linked(i),
{
    let f = s.promoted(p, d);
    let o = d.opposite();
    let c = s.nodes[p].child(d).unwrap();
    let inner = s.nodes[c].child(o);
    let up = s.nodes[p].parent;
    assert(s.node_linked(p));
    assert(s.child_linked(p, d));
    assert(s.child_linked(p, o));
    assert(s.node_linked(c));
    assert(s.child_linked(c, o));
    assert(s.child_linked(c, d));
    assert(s.node_linked(i));
    assert(s.child_linked(i, Directions::Left));
    assert(s.child_linked(i, Directions::Right));
    match inner {
        Some(x) => {
            assert(s.node_linked(x));
        },
        None => {},
    }
    match up {
        Some(g) => {
            assert(s.node_linked(g));
            assert(s.child_linked(g, Directions::Left));
            assert(s.child_linked(g, Directions::Right));
        },
        None => {},
    }
    assert(f.nodes.len() == s.nodes.len());
    assert(f.nodes[p] == s.nodes[p].with_child(d, inner).with_parent(Some(c)));
    assert(f.nodes[c] == s.nodes[c].with_child(o, Some(p)).with_parent(up));
    assert(f.low[i] == s.low[i] && f.high[i] == s.high[i]);
    // The children of `i` are neither `p` nor the promoted node, nor the
    // subtree that changed hands unless `i` is the node above.
    match s.nodes[i].left {
        Some(l) => {
            assert(s.node_linked(l));
            assert(l != p || up == Some(i));
            assert(l != c);
            assert(inner != Some(l));
        },
        None => {},
    }
    match s.nodes[i].right {
        Some(r) => {
            assert(s.node_linked(r));
            assert(r != p || up == Some(i));
            assert(r != c);
            assert(inner != Some(r));
        },
        None => {},
    }
    if up == Some(i) {
        assert(f.nodes[i] == s.nodes[i].with_child(s.child_side(i, p), Some(c)));
        assert(f.child_linked(i, Directions::Left));
        assert(f.child_linked(i, Directions::Right));
    } else if inner == Some(i) {
        assert(f.nodes[i] == s.nodes[i].with_parent(Some(p)));
        assert(f.child_linked(i, Directions::Left));
        assert(f.child_linked(i, Directions::Right));
    } else {
        assert(f.nodes[i] == s.nodes[i]);
        assert(f.child_linked(i, Directions::Left));
        assert(f.child_linked(i, Directions::Right));
        match s.nodes[i].parent {
            Some(u) => {
                assert(s.node_linked(u));
                assert(s.has(u));
            },
            None => {},
        }
    }
}

/// The subtree of a node holds the whole subtree of every node in it.
pub proof fn lemma_nested<V, K>(t: TreeView<V, K>, a: int, b: int)
    requires
        t.linked(),
        t.has(a),
        t.has(b),
        t.covers(a, b),
    ensures
        t.low[a] <= t.low[b],
        t.high[b] <= t.high[a],
    decreases t.high[a] - t.low[a],
{
    assert(t.node_linked(a));
    assert(t.node_linked(b));
    if t.rank[b] < t.rank[a] {
        assert(t.child_linked(a, Directions::Left));
        let c = t.nodes[a].left.unwrap();
        assert(t.node_linked(c));
        lemma_nested(t, c, b);
    } else if t.rank[b] > t.rank[a] {
        assert(t.child_linked(a, Directions::Right));
        let c = t.nodes[a].right.unwrap();
        assert(t.node_linked(c));
        lemma_nested(t, c, b);
    }
}

/// Consistency of links, order and index does not depend on the balance
/// counters.
pub proof fn lemma_same_shape<V: PartialOrd, K>(m: TreeView<V, K>, s: TreeView<V, K>)
    requires
        m.same_shape(s),
    ensures
        m.linked() ==> s.linked(),
        m.linked() && m.sorted() ==> s.sorted(),
        m.indexed() ==> s.indexed(),
        m.same_contents(s),
{
    assert forall|i: int| m.has(i) implies (#[trigger] m.nodes[i]).id == s.nodes[i].id
        && m.nodes[i].value == s.nodes[i].value by {
        assert(s.nodes[i] == m.nodes[i].with_balance(s.nodes[i].balance));
    }
    if m.linked() {
        assert forall|i: int| s.has(i) implies #[trigger] s.node_linked(i) by {
            assert(m.node_linked(i));
            assert(m.child_linked(i, Directions::Left));
            assert(m.child_linked(i, Directions::Right));
            assert(s.nodes[i] == m.nodes[i].with_balance(s.nodes[i].balance));
            match m.nodes[i].left {
                Some(c) => {
                    assert(s.nodes[c] == m.nodes[c].with_balance(s.nodes[c].balance));
                },
                None => {},
            }
            match m.nodes[i].right {
                Some(c) => {
                    assert(s.nodes[c] == m.nodes[c].with_balance(s.nodes[c].balance));
                },
                None => {},
            }
            match m.nodes[i].parent {
                Some(u) => {
                    assert(s.nodes[u] == m.nodes[u].with_balance(s.nodes[u].balance));
                },
                None => {},
            }
            assert(s.child_linked(i, Directions::Left));
            assert(s.child_linked(i, Directions::Right));
        }
        assert(s.nodes[s.head] == m.nodes[m.head].with_balance(s.nodes[s.head].balance));
        assert forall|q: int| 0 <= q < s.len() implies s.has(#[trigger] s.order[q])
            && s.rank[s.order[q]] == q by {
            assert(m.has(m.order[q]));
        }
        if m.sorted() {
            lemma_same_contents_sorted(m, s);
        }
    }
    if m.indexed() {
        lemma_same_contents_indexed(m, s);
    }
}

/// A tree with the same listing and the same values is sorted as well.
pub proof fn lemma_same_contents_sorted<V: PartialOrd, K>(m: TreeView<V, K>, s: TreeView<V, K>)
    requires
        m.linked(),
        m.sorted(),
        m.same_contents(s),
    ensures
        s.sorted(),
{
    assert forall|q: int, r: int| 0 <= q < r < s.len() implies at_most(
        #[trigger] s.value_at(q),
        #[trigger] s.value_at(r),
    ) by {
        assert(m.has(m.order[q]));
        assert(m.has(m.order[r]));
        assert(m.nodes[m.order[q]].value == s.nodes[m.order[q]].value);
        assert(m.nodes[m.order[r]].value == s.nodes[m.order[r]].value);
        assert(at_most(m.value_at(q), m.value_at(r)));
    }
}

/// A tree with the same index and the same ids is indexed as well.
pub proof fn lemma_same_contents_indexed<V, K>(m: TreeView<V, K>, s: TreeView<V, K>)
    requires
        m.indexed(),
        m.same_contents(s),
    ensures
        s.indexed(),
{
    assert forall|i: int| s.has(i) implies s.index.contains_key(#[trigger] s.nodes[i].id)
        && s.index[s.nodes[i].id] == i by {
        assert(m.nodes[i].id == s.nodes[i].id);
        assert(m.index.contains_key(m.nodes[i].id));
    }
    assert forall|k: K| #[trigger] s.index.contains_key(k) implies s.has(s.index[k])
        && s.nodes[s.index[k]].id == k by {
        assert(m.index.contains_key(k));
        assert(m.nodes[m.index[k]].id == s.nodes[m.index[k]].id);
    }
}

/// Promotion and balance counters do not touch each other: trees of one
/// shape are promoted to trees of one shape.
pub proof fn lemma_promoted_frame<V, K>(m: TreeView<V, K>, s: TreeView<V, K>, p: int, d: Directions)
    requires
        m.same_shape(s),
        m.has(p),
        m.nodes[p].child(d) is Some,
        m.linked(),
    ensures
        s.nodes[p].child(d) == m.nodes[p].child(d),
        m.promoted(p, d).same_shape(s.promoted(p, d)),
{
    let mp = m.promoted(p, d);
    let sp = s.promoted(p, d);
    let o = d.opposite();
    let c = m.nodes[p].child(d).unwrap();
    assert(m.node_linked(p));
    assert(m.child_linked(p, d));
    assert(m.node_linked(c));
    assert(m.child_linked(c, o));
    assert(s.nodes[p] == m.nodes[p].with_balance(s.nodes[p].balance));
    assert(s.nodes[c] == m.nodes[c].with_balance(s.nodes[c].balance));
    let inner = m.nodes[c].child(o);
    let up = m.nodes[p].parent;
    match inner {
        Some(x) => {
            assert(s.nodes[x] == m.nodes[x].with_balance(s.nodes[x].balance));
        },
        None => {},
    }
    match up {
        Some(g) => {
            assert(s.nodes[g] == m.nodes[g].with_balance(s.nodes[g].balance));
        },
        None => {},
    }
    assert(mp.low == sp.low);
    assert(mp.high == sp.high);
    assert forall|i: int| mp.has(i) implies #[trigger] sp.nodes[i] == mp.nodes[i].with_balance(
        sp.nodes[i].balance,
    ) by {
        assert(s.nodes[i] == m.nodes[i].with_balance(s.nodes[i].balance));
    }
}

/// A tree that holds what the tree with the new leaf holds has grown by
/// that leaf.
pub proof fn lemma_grown<V: PartialOrd, K>(
    t: TreeView<V, K>,
    id: K,
    value: V,
    p: int,
    c: int,
    d: Directions,
    f: TreeView<V, K>,
)
    requires
        total_order::<V>(),
        t.wf(),
        t.splits(p, value),
        t.free_at(c, d, p),
        t.attach_at(id, value, p, c, d).same_contents(f),
    ensures
        p == t.position_for(value),
        t.grown_by(id, value, f),
{
    let m = t.attach_at(id, value, p, c, d);
    let x = t.len();
    lemma_splits_unique(t, p, t.position_for(value), value);
    assert(f.order =~= t.order.insert(p, x));
    assert forall|i: int| t.has(i) implies (#[trigger] f.nodes[i]).id == t.nodes[i].id
        && f.nodes[i].value == t.nodes[i].value by {
        assert(m.nodes[i].id == f.nodes[i].id);
    }
    assert(m.nodes[x].id == f.nodes[x].id);
    assert forall|q: int| 0 <= q < f.values().len() implies f.values()[q] == t.values().insert(
        p,
        value,
    )[q] by {
        if q < p {
            assert(t.has(t.order[q]));
            assert(m.nodes[t.order[q]].value == f.nodes[t.order[q]].value);
        } else if q > p {
            assert(t.has(t.order[q - 1]));
            assert(m.nodes[t.order[q - 1]].value == f.nodes[t.order[q - 1]].value);
        }
    }
    assert(f.values() =~= t.values().insert(p, value));
}

} // verus!
