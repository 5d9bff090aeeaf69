//! Depth-first search in a tree.

use crate::data_structures::tree::{BasicTree, Tree, TreeNode};
use std::hash::Hash;
use vstd::prelude::*;

verus! {

/// The slots of the subtree under `slot` in the order in which a depth-first
/// walk meets them: the node itself, then the subtree of each child in turn.
pub open spec fn preorder<T, N, V, K>(tree: &T, slot: int) -> Seq<int> where
    N: TreeNode<V, K>,
    T: Tree<N, V, K>,

    decreases tree.arena().len() - slot, 1int, 0int,
    when tree.ordered() && 0 <= slot < tree.arena().len()
{
    seq![slot] + preorder_from(tree, slot, 0)
}

/// The walk through the subtrees of the children of `slot` from child number
/// `from` on.
pub open spec fn preorder_from<T, N, V, K>(tree: &T, slot: int, from: int) -> Seq<int> where
    N: TreeNode<V, K>,
    T: Tree<N, V, K>,

    decreases tree.arena().len() - slot, 0int, tree.arena()[slot].child_slots().len() - from,
    when tree.ordered() && 0 <= slot < tree.arena().len() && 0 <= from
    via preorder_from_decreases::<T, N, V, K>
{
    let children = tree.arena()[slot].child_slots();
    if from >= children.len() {
        Seq::empty()
    } else {
        preorder(tree, children[from] as int) + preorder_from(tree, slot, from + 1)
    }
}

#[via_fn]
proof fn preorder_from_decreases<T, N, V, K>(tree: &T, slot: int, from: int) where
    N: TreeNode<V, K>,
    T: Tree<N, V, K>,
 {
    let children = tree.arena()[slot].child_slots();
    if from < children.len() {
        tree.lemma_children_follow(slot, from);
    }
}

/// `predicate` accepts every node.
pub open spec fn total<N, P: Fn(&N) -> bool>(predicate: P) -> bool {
    forall|node: &N| #[trigger] predicate.requires((node,))
}

/// `predicate` has refused each of the nodes in the slots `walk`.
pub open spec fn all_refused<T, N, V, K, P>(tree: &T, predicate: P, walk: Seq<int>) -> bool where
    N: TreeNode<V, K>,
    T: Tree<N, V, K>,
    P: Fn(&N) -> bool,
 {
    forall|q: int| 0 <= q < walk.len() ==> predicate.ensures((&tree.arena()[#[trigger] walk[q]],), false)
}

/// `found` is the first node on `walk` that `predicate` has accepted, or,
/// where `found` is `None`, `predicate` has refused every node on `walk`.
pub open spec fn first_accepted<T, N, V, K, P>(
    tree: &T,
    predicate: P,
    walk: Seq<int>,
    found: Option<&N>,
) -> bool where N: TreeNode<V, K>, T: Tree<N, V, K>, P: Fn(&N) -> bool {
    match found {
        Some(node) => exists|p: int|
            {
                &&& 0 <= p < walk.len()
                &&& 0 <= #[trigger] walk[p] < tree.arena().len()
                &&& *node == tree.arena()[walk[p]]
                &&& predicate.ensures((node,), true)
                &&& all_refused(tree, predicate, walk.subrange(0, p))
            },
        None => all_refused(tree, predicate, walk),
    }
}

/// The walk under `slot`, from the node itself on.
fn search<'a, T, N, K, V, P>(tree: &'a T, slot: usize, predicate: &P) -> (r: Option<&'a N>) where
    N: TreeNode<V, K>,
    T: Tree<N, V, K>,
    P: Fn(&N) -> bool,

    requires
        tree.ordered(),
        slot < tree.arena().len(),
        total::<N, P>(*predicate),
    ensures
        first_accepted(tree, *predicate, preorder(tree, slot as int), r),
    decreases tree.arena().len() - slot,
{
    let node = match tree.node(slot) {
        Some(node) => node,
        None => {
            return None;
        },
    };
    let ghost walk = preorder(tree, slot as int);
    if predicate(node) {
        proof {
            assert(walk[0] == slot);
            assert(walk.subrange(0, 0) =~= Seq::<int>::empty());
        }
        return Some(node);
    }
    let children = node.nodes();
    let mut i: usize = 0;
    let ghost mut done = seq![slot as int];
    proof {
        assert(walk =~= done + preorder_from(tree, slot as int, 0));
        assert((*predicate).ensures((&tree.arena()[done[0]],), false));
    }
    while i < children.len()
        invariant
            tree.ordered(),
            slot < tree.arena().len(),
            total::<N, P>(*predicate),
            children@ == tree.arena()[slot as int].child_slots(),
            i <= children@.len(),
            walk == preorder(tree, slot as int),
            all_refused(tree, *predicate, done),
            walk == done + preorder_from(tree, slot as int, i as int),
        decreases children@.len() - i,
    {
        proof {
            tree.lemma_children_follow(slot as int, i as int);
        }
        let child = children[i];
        let search_result = search(tree, child, predicate);
        let ghost under = preorder(tree, child as int);
        let ghost rest = preorder_from(tree, slot as int, i + 1);
        proof {
            assert(preorder_from(tree, slot as int, i as int) == under + rest);
            assert(walk =~= (done + under) + rest);
        }
        if search_result.is_some() {
            proof {
                let found = search_result.unwrap();
                let p = choose|p: int|
                    {
                        &&& 0 <= p < under.len()
                        &&& 0 <= #[trigger] under[p] < tree.arena().len()
                        &&& *found == tree.arena()[under[p]]
                        &&& (*predicate).ensures((found,), true)
                        &&& all_refused(tree, *predicate, under.subrange(0, p))
                    };
                let at = done.len() + p;
                assert(walk[at] == under[p]);
                assert(walk.subrange(0, at) =~= done + under.subrange(0, p));
                assert forall|q: int| 0 <= q < walk.subrange(0, at).len() implies (
                *predicate).ensures((&tree.arena()[#[trigger] walk.subrange(0, at)[q]],), false) by {
                    if q < done.len() {
                        assert(walk.subrange(0, at)[q] == done[q]);
                    } else {
                        assert(walk.subrange(0, at)[q] == under.subrange(0, p)[q - done.len()]);
                    }
                }
            }
            return search_result;
        }
        proof {
            let more = done + under;
            assert forall|q: int| 0 <= q < more.len() implies (*predicate).ensures(
                (&tree.arena()[#[trigger] more[q]],),
                false,
            ) by {
                if q < done.len() {
                    assert(more[q] == done[q]);
                } else {
                    assert(more[q] == under[q - done.len()]);
                }
            }
            done = more;
        }
        i = i + 1;
    }
    proof {
        assert(preorder_from(tree, slot as int, i as int) =~= Seq::<int>::empty());
        assert(walk =~= done);
    }
    None
}

/// Walks the tree branch by branch, each node before its children and the
/// children in their order, and returns the first node that `predicate`
/// accepts, or `None` where it refuses all.
pub fn depth_first_search<'a, T, N, K, V, P>(tree: &'a T, predicate: P) -> (r: Option<&'a N>) where
    N: TreeNode<V, K>,
    T: Tree<N, V, K>,
    P: Fn(&N) -> bool,

    requires
        tree.ordered(),
        total::<N, P>(predicate),
    ensures
        first_accepted(tree, predicate, preorder(tree, 0), r),
{
    let _head = tree.head();
    search(tree, 0, &predicate)
}

/// What one of two joined sequences holds, the joined sequence holds.
proof fn lemma_joined_holds(a: Seq<int>, b: Seq<int>, z: int)
    requires
        a.contains(z) || b.contains(z),
    ensures
        (a + b).contains(z),
{
    if a.contains(z) {
        let i = choose|i: int| 0 <= i < a.len() && a[i] == z;
        assert((a + b)[i] == z);
    } else {
        let i = choose|i: int| 0 <= i < b.len() && b[i] == z;
        assert((a + b)[a.len() + i] == z);
    }
}

/// The walk through the children of a node holds the walk under each of
/// the children it starts from or comes to.
pub proof fn lemma_walk_holds_child<T, N, V, K>(tree: &T, slot: int, from: int, child: int, z: int) where
    N: TreeNode<V, K>,
    T: Tree<N, V, K>,

    requires
        tree.ordered(),
        0 <= slot < tree.arena().len(),
        0 <= from <= child < tree.arena()[slot].child_slots().len(),
        preorder(tree, tree.arena()[slot].child_slots()[child] as int).contains(z),
    ensures
        preorder_from(tree, slot, from).contains(z),
    decreases child - from,
{
    let children = tree.arena()[slot].child_slots();
    tree.lemma_children_follow(slot, from);
    tree.lemma_children_follow(slot, child);
    let under = preorder(tree, children[from] as int);
    let rest = preorder_from(tree, slot, from + 1);
    assert(preorder_from(tree, slot, from) == under + rest);
    if from < child {
        lemma_walk_holds_child(tree, slot, from + 1, child, z);
    }
    lemma_joined_holds(under, rest, z);
}

/// What the walk through the children of a node holds, the walk under one
/// of them holds.
proof fn lemma_walk_under_some_child<T, N, V, K>(tree: &T, slot: int, from: int, z: int) -> (child:
    int) where N: TreeNode<V, K>, T: Tree<N, V, K>
    requires
        tree.ordered(),
        0 <= slot < tree.arena().len(),
        0 <= from,
        preorder_from(tree, slot, from).contains(z),
    ensures
        from <= child < tree.arena()[slot].child_slots().len(),
        preorder(tree, tree.arena()[slot].child_slots()[child] as int).contains(z),
    decreases tree.arena()[slot].child_slots().len() - from,
{
    let children = tree.arena()[slot].child_slots();
    if from >= children.len() {
        assert(preorder_from(tree, slot, from) =~= Seq::<int>::empty());
        from
    } else {
        tree.lemma_children_follow(slot, from);
        let under = preorder(tree, children[from] as int);
        let rest = preorder_from(tree, slot, from + 1);
        assert(preorder_from(tree, slot, from) == under + rest);
        if under.contains(z) {
            from
        } else {
            let i = choose|i: int| 0 <= i < (under + rest).len() && (under + rest)[i] == z;
            if i < under.len() {
                assert(under[i] == z);
            }
            assert(rest[i - under.len()] == z);
            lemma_walk_under_some_child(tree, slot, from + 1, z)
        }
    }
}

/// The walk under a node holds the walk under every node that it holds.
pub proof fn lemma_walk_holds_subtree<T, N, V, K>(tree: &T, a: int, b: int, z: int) where
    N: TreeNode<V, K>,
    T: Tree<N, V, K>,

    requires
        tree.ordered(),
        0 <= a < tree.arena().len(),
        0 <= b < tree.arena().len(),
        preorder(tree, a).contains(b),
        preorder(tree, b).contains(z),
    ensures
        preorder(tree, a).contains(z),
    decreases tree.arena().len() - a,
{
    if a != b {
        let first = seq![a];
        let rest = preorder_from(tree, a, 0);
        assert(preorder(tree, a) == first + rest);
        let i = choose|i: int| 0 <= i < (first + rest).len() && (first + rest)[i] == b;
        assert(rest[i - 1] == b);
        let child = lemma_walk_under_some_child(tree, a, 0, b);
        tree.lemma_children_follow(a, child);
        let c = tree.arena()[a].child_slots()[child] as int;
        lemma_walk_holds_subtree(tree, c, b, z);
        lemma_walk_holds_child(tree, a, 0, child, z);
        lemma_joined_holds(first, rest, z);
    }
}

/// The walk from the head of a `BasicTree` meets every node.
pub proof fn lemma_walk_meets_every_node<V, K>(tree: &BasicTree<V, K>, i: int) where
    K: Eq + Hash + Copy,

    requires
        tree.wf(),
        0 <= i < tree@.nodes.len(),
    ensures
        preorder(tree, 0).contains(i),
    decreases i,
{
    tree.lemma_slots();
    assert(tree@.node_linked(i));
    if i == 0 {
        assert(preorder(tree, 0) == seq![0int] + preorder_from(tree, 0, 0));
        assert(preorder(tree, 0)[0] == 0);
    } else {
        let p = tree@.nodes[i].parent.unwrap() as int;
        lemma_walk_meets_every_node(tree, p);
        let children = tree@.nodes[p].children;
        let slot = i as usize;
        assert(children.contains(slot));
        let j = choose|j: int| 0 <= j < children.len() && children[j] == slot;
        assert(tree.arena()[p].child_slots() == children);
        tree.lemma_children_follow(p, j);
        assert(preorder(tree, i) == seq![i] + preorder_from(tree, i, 0));
        assert(preorder(tree, i)[0] == i);
        assert(preorder(tree, i).contains(i));
        assert(children[j] as int == i);
        lemma_walk_holds_child(tree, p, 0, j, i);
        assert(preorder(tree, p) == seq![p] + preorder_from(tree, p, 0));
        lemma_joined_holds(seq![p], preorder_from(tree, p, 0), i);
        lemma_walk_holds_subtree(tree, 0, p, i);
    }
}

} // verus!
