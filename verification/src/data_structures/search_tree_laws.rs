//! Laws of the balanced search tree, proved from the model: what the ghost
//! listing has to do with the links, the order of values around every node,
//! the range of the balance counters, and what an insertion leaves alone.

use crate::data_structures::search_tree_model::{
    lemma_nested, lemma_promoted, lemma_splits_unique, Directions, TreeView,
};
use crate::order::{at_most, lemma_less_or_at_most, total_order};
use vstd::prelude::*;

verus! {

impl<V, K> TreeView<V, K> {
    /// The slots of the subtree under `i`, in in-order.
    pub open spec fn subtree(self, i: int) -> Seq<int> {
        self.order.subrange(self.low[i], self.high[i])
    }

    /// The slots of the subtree that hangs on side `d` of `i`, in in-order;
    /// empty where nothing hangs there.
    pub open spec fn subtree_on(self, i: int, d: Directions) -> Seq<int> {
        match self.nodes[i].child(d) {
            Some(c) => self.subtree(c),
            None => Seq::empty(),
        }
    }
}

/// The in-order listing is the in-order traversal of the links: the listing
/// of the head's subtree is the whole listing, and the listing of any subtree
/// is that of its left side, then its root, then that of its right side.
pub proof fn lemma_listing_is_traversal<V, K>(t: TreeView<V, K>, i: int)
    requires
        t.linked(),
        t.has(i),
    ensures
        t.subtree(t.head) == t.order,
        t.subtree(i) == t.subtree_on(i, Directions::Left).push(i) + t.subtree_on(
            i,
            Directions::Right,
        ),
{
    assert(t.subtree(t.head) =~= t.order);
    assert(t.node_linked(i));
    assert(t.child_linked(i, Directions::Left));
    assert(t.child_linked(i, Directions::Right));
    match t.nodes[i].left {
        Some(l) => {
            assert(t.node_linked(l));
        },
        None => {},
    }
    match t.nodes[i].right {
        Some(r) => {
            assert(t.node_linked(r));
        },
        None => {},
    }
    assert(t.subtree(i) =~= t.subtree_on(i, Directions::Left).push(i) + t.subtree_on(
        i,
        Directions::Right,
    ));
}

/// Order invariant: the values of a consistent tree, read in in-order, never
/// descend.
pub proof fn lemma_in_order_sorted<V: PartialOrd, K>(t: TreeView<V, K>, p: int, q: int)
    requires
        t.wf(),
        0 <= p <= q < t.len(),
        total_order::<V>(),
    ensures
        at_most(t.values()[p], t.values()[q]),
{
    if p < q {
        assert(at_most(t.value_at(p), t.value_at(q)));
    } else {
        lemma_less_or_at_most(t.value_at(p), t.value_at(p));
    }
}

/// Search order: no value in the left subtree of a node exceeds the node's
/// value, and the node's value exceeds none in its right subtree.
pub proof fn lemma_search_order<V: PartialOrd, K>(t: TreeView<V, K>, i: int, j: int)
    requires
        t.wf(),
        t.has(i),
        t.has(j),
        t.covers(i, j),
    ensures
        t.rank[j] < t.rank[i] ==> at_most(t.nodes[j].value, t.nodes[i].value),
        t.rank[j] > t.rank[i] ==> at_most(t.nodes[i].value, t.nodes[j].value),
        t.rank[j] == t.rank[i] ==> i == j,
{
    assert(t.node_linked(i));
    assert(t.node_linked(j));
    if t.rank[j] < t.rank[i] {
        assert(at_most(t.value_at(t.rank[j]), t.value_at(t.rank[i])));
    }
    if t.rank[j] > t.rank[i] {
        assert(at_most(t.value_at(t.rank[i]), t.value_at(t.rank[j])));
    }
}

/// Balance invariant: in a consistent tree every balance counter is -1, 0
/// or 1.
pub proof fn lemma_balance_range<V: PartialOrd, K>(t: TreeView<V, K>, i: int)
    requires
        t.wf(),
        t.has(i),
    ensures
        -1 <= t.nodes[i].balance <= 1,
{
    assert(t.node_balanced(i));
}

/// Parent consistency: the child that a node names on either side names
/// that node as its parent, and the head has no parent.
pub proof fn lemma_child_points_back<V: PartialOrd, K>(t: TreeView<V, K>, i: int, d: Directions)
    requires
        t.wf(),
        t.has(i),
    ensures
        t.nodes[t.head].parent is None,
        t.nodes[i].child(d) matches Some(c) ==> t.has(c) && t.nodes[c].parent == Some(i),
        t.nodes[i].parent matches Some(p) ==> t.has(p) && (t.nodes[p].left == Some(i)
            || t.nodes[p].right == Some(i)),
        t.nodes[i].parent is None ==> i == t.head,
{
    assert(t.node_linked(i));
    assert(t.child_linked(i, d));
}

/// Index completeness: every node is registered under its own id, every
/// registered id leads to the node that carries it, and no two nodes carry
/// one id.
pub proof fn lemma_index_complete<V: PartialOrd, K>(t: TreeView<V, K>, i: int, j: int, k: K)
    requires
        t.wf(),
        t.has(i),
        t.has(j),
    ensures
        t.index.contains_key(t.nodes[i].id) && t.index[t.nodes[i].id] == i,
        t.index.contains_key(k) ==> t.has(t.index[k]) && t.nodes[t.index[k]].id == k,
        t.nodes[i].id == t.nodes[j].id ==> i == j,
        t.order[t.rank[i]] == i,
{
    assert(t.index[t.nodes[i].id] == i);
    assert(t.index[t.nodes[j].id] == j);
    assert(t.node_linked(i));
}

/// Two nodes whose subtrees hold each other are one node.
pub proof fn lemma_mutual_cover<V, K>(t: TreeView<V, K>, a: int, b: int)
    requires
        t.linked(),
        t.has(a),
        t.has(b),
        t.covers(a, b),
        t.covers(b, a),
    ensures
        a == b,
{
    lemma_nested(t, a, b);
    lemma_nested(t, b, a);
    assert(t.node_linked(a));
    assert(t.node_linked(b));
    assert(t.child_linked(a, Directions::Left));
    assert(t.child_linked(a, Directions::Right));
    if t.rank[b] < t.rank[a] {
        let c = t.nodes[a].left.unwrap();
        assert(t.node_linked(c));
        lemma_nested(t, c, b);
    } else if t.rank[b] > t.rank[a] {
        let c = t.nodes[a].right.unwrap();
        assert(t.node_linked(c));
        lemma_nested(t, c, b);
    }
}

/// A node whose subtree holds another node holds that node's parent too,
/// unless it is that node.
pub proof fn lemma_covers_parent<V, K>(t: TreeView<V, K>, b: int, c: int)
    requires
        t.linked(),
        t.has(b),
        t.has(c),
        t.covers(b, c),
        b != c,
        t.nodes[c].parent is Some,
    ensures
        t.covers(b, t.nodes[c].parent.unwrap()),
    decreases t.high[b] - t.low[b],
{
    let a = t.nodes[c].parent.unwrap();
    assert(t.node_linked(b));
    assert(t.node_linked(c));
    assert(t.child_linked(b, Directions::Left));
    assert(t.child_linked(b, Directions::Right));
    if t.rank[c] == t.rank[b] {
        assert(t.order[t.rank[c]] == c);
    } else {
        let next = if t.rank[c] < t.rank[b] {
            t.nodes[b].left.unwrap()
        } else {
            t.nodes[b].right.unwrap()
        };
        assert(t.node_linked(next));
        if next != c {
            lemma_covers_parent(t, next, c);
        }
    }
}

/// Of two nodes whose subtrees hold one node, one is in the subtree of the
/// other.
pub proof fn lemma_ancestors_nest<V, K>(t: TreeView<V, K>, a: int, b: int, x: int)
    requires
        t.linked(),
        t.has(a),
        t.has(b),
        t.has(x),
        t.covers(a, x),
        t.covers(b, x),
    ensures
        t.covers(a, b) || t.covers(b, a),
    decreases t.high[a] - t.low[a],
{
    assert(t.node_linked(a));
    assert(t.node_linked(b));
    assert(t.node_linked(x));
    assert(t.child_linked(a, Directions::Left));
    assert(t.child_linked(a, Directions::Right));
    if t.rank[x] == t.rank[a] {
        assert(t.order[t.rank[x]] == x);
    } else {
        let next = if t.rank[x] < t.rank[a] {
            t.nodes[a].left.unwrap()
        } else {
            t.nodes[a].right.unwrap()
        };
        assert(t.node_linked(next));
        lemma_ancestors_nest(t, next, b, x);
        if t.covers(b, next) && b != next {
            lemma_covers_parent(t, b, next);
        }
    }
}

/// A new leaf has at most one pivot.
pub proof fn lemma_pivot_unique<V, K>(t: TreeView<V, K>, x: int, p: int, q: int)
    requires
        t.linked(),
        t.has(x),
        t.is_pivot(p, x),
        t.is_pivot(q, x),
    ensures
        p == q,
{
    lemma_ancestors_nest(t, p, q, x);
}

/// Where the new leaf `x` has a pivot, the settled tree is the tree rotated
/// at that pivot; where it has none, the tree with the ancestors of `x`
/// adjusted.
pub proof fn lemma_settled_is_determined<V, K>(
    t: TreeView<V, K>,
    x: int,
    f: TreeView<V, K>,
    p: int,
)
    requires
        t.linked(),
        t.has(x),
        t.settled(x, f),
    ensures
        t.is_pivot(p, x) ==> f == t.rotated(x, p),
        (forall|a: int| !t.tips(a, x)) ==> f == t.climbed(x),
{
    if t.is_pivot(p, x) {
        assert(t.tips(p, x));
        let q = choose|q: int| #[trigger] t.is_pivot(q, x) && f == t.rotated(x, q);
        lemma_pivot_unique(t, x, p, q);
    }
}

/// A position that splits the listing around a value is the position that a
/// new node with that value takes.
pub proof fn lemma_position_for<V: PartialOrd, K>(t: TreeView<V, K>, p: int, value: V)
    requires
        total_order::<V>(),
        t.splits(p, value),
    ensures
        t.position_for(value) == p,
{
    lemma_splits_unique(t, p, t.position_for(value), value);
}

/// Root replacement: a rotation at the pivot of a new leaf `x` puts the
/// promoted node at the head of the tree where the pivot was the head, and
/// leaves the head alone where it was not.
pub proof fn lemma_rotation_head<V: PartialOrd, K>(m: TreeView<V, K>, x: int, p: int)
    requires
        m.wf(),
        m.has(x),
        m.nodes[x].balance == 0,
        m.nodes[x].left is None,
        m.nodes[x].right is None,
        m.is_pivot(p, x),
    ensures
        m.rotated(x, p).head == (if p == m.head {
            m.rotation_top(p, x)
        } else {
            m.head
        }),
        m.rotated(x, p).order == m.order,
{
    let d = m.side(p, x);
    let o = d.opposite();
    assert(m.node_linked(p));
    assert(m.node_linked(x));
    assert(m.node_linked(m.head));
    assert(m.child_linked(p, Directions::Left));
    assert(m.child_linked(p, Directions::Right));
    assert(m.child_linked(x, Directions::Left));
    assert(m.child_linked(x, Directions::Right));
    let c = m.nodes[p].child(d).unwrap();
    assert(m.nodes[p].child(d) is Some);
    assert(m.node_linked(c));
    lemma_promoted(m, p, d);
    if m.zigzag(p, x) {
        assert(m.node_balanced(c));
        assert(m.child_linked(c, Directions::Left));
        assert(m.child_linked(c, Directions::Right));
        if c == x {
            assert(m.climbed_balance(c, x) == 0);
        }
        assert(m.is_ancestor(c, x));
        assert(m.side(c, x) == o);
        assert(m.nodes[c].child(o) is Some);
        let g = m.nodes[c].child(o).unwrap();
        lemma_promoted(m, c, o);
        let m1 = m.promoted(c, o);
        assert(m1.nodes[p].child(d) == Some(g)) by {
            assert(m.child_side(p, c) == d);
        }
        assert(m1.nodes[p].parent == m.nodes[p].parent);
        lemma_promoted(m1, p, d);
    }
}

/// Lookup after insertion: in a tree that has grown by `value` under `id`,
/// the index leads from `id` to a node that holds `value`, and from every
/// other id to the node it led to before.
pub proof fn lemma_lookup_after_insert<V: PartialOrd, K>(
    before: TreeView<V, K>,
    id: K,
    value: V,
    after: TreeView<V, K>,
    other: K,
)
    requires
        before.indexed(),
        !before.index.contains_key(id),
        before.grown_by(id, value, after),
    ensures
        after.index.contains_key(id),
        after.nodes[after.index[id]].id == id,
        after.nodes[after.index[id]].value == value,
        other != id ==> after.index.contains_key(other) == before.index.contains_key(other),
        before.index.contains_key(other) ==> after.index[other] == before.index[other]
            && after.nodes[after.index[other]].value == before.nodes[before.index[other]].value,
{
    if before.index.contains_key(other) {
        assert(before.has(before.index[other]));
    }
}

/// An insertion that tips no ancestor of the new leaf rotates nothing: the
/// head stays, the links stay, and only the balance counters of the
/// ancestors of the leaf move.
pub proof fn lemma_untipped_insert<V: PartialOrd, K>(
    before: TreeView<V, K>,
    id: K,
    value: V,
    after: TreeView<V, K>,
)
    requires
        before.attach(id, value).settled(before.len(), after),
        forall|a: int| !before.attach(id, value).tips(a, before.len()),
    ensures
        after.head == before.head,
        after == before.attach(id, value).climbed(before.len()),
        before.attach(id, value).same_shape(after),
{
    let m = before.attach(id, value);
    let x = before.len();
    assert(after == m.climbed(x));
}

} // verus!
