//! Binary search, over a sorted slice and over the balanced search tree.

use crate::data_structures::binary_search_tree::{BinarySearchTree, BinarySearchTreeNode};
use crate::data_structures::search_tree_model::Directions;
use crate::order::{
    ascending, at_most, equivalent, greater, is_greater, is_less, lemma_at_most_then_less,
    lemma_equivalent_exclusive, lemma_less_then_at_most, less, total_order,
};
use std::hash::Hash;
use vstd::prelude::*;

verus! {

/// Looks for an element equivalent to `element` in the ascending `list` by
/// halving the range that can still hold one. Returns the index of such an
/// element, or `None` where the list holds none.
pub fn binary_search<T>(list: &[T], element: &T) -> (r: Option<usize>) where T: Eq + Ord
    requires
        total_order::<T>(),
        ascending(list@),
    ensures
        match r {
            Some(i) => i < list@.len() && equivalent(list@[i as int], *element),
            None => forall|i: int| 0 <= i < list@.len() ==> !equivalent(list@[i], *element),
        },
{
    let mut low: usize = 0;
    let mut high: usize = list.len();
    while low < high
        invariant
            total_order::<T>(),
            ascending(list@),
            low <= high <= list@.len(),
            forall|i: int| 0 <= i < low ==> less(#[trigger] list@[i], *element),
            forall|i: int| high <= i < list@.len() ==> greater(#[trigger] list@[i], *element),
        decreases high - low,
    {
        let mid = low + (high - low) / 2;
        let guess = &list[mid];
        if is_greater(guess, element) {
            proof {
                assert forall|i: int| mid <= i < list@.len() implies greater(
                    #[trigger] list@[i],
                    *element,
                ) by {
                    crate::order::lemma_less_or_at_most(list@[i], *element);
                    crate::order::lemma_less_or_at_most(*guess, *element);
                    if i > mid {
                        assert(at_most(list@[mid as int], list@[i]));
                        lemma_less_then_at_most(*element, *guess, list@[i]);
                    }
                }
            }
            high = mid;
        } else if is_less(guess, element) {
            proof {
                assert forall|i: int| 0 <= i <= mid implies less(#[trigger] list@[i], *element) by {
                    if i < mid {
                        assert(at_most(list@[i], list@[mid as int]));
                        lemma_at_most_then_less(list@[i], *guess, *element);
                    }
                }
            }
            low = mid + 1;
        } else {
            proof {
                lemma_equivalent_exclusive(*guess, *element);
            }
            return Some(mid);
        }
    }
    proof {
        assert forall|i: int| 0 <= i < list@.len() implies !equivalent(list@[i], *element) by {
            lemma_equivalent_exclusive(list@[i], *element);
        }
    }
    None
}

/// Looks for a node whose value is equivalent to `desired_value`, walking
/// down from the head: right where the node's value is below the desired
/// one, left where it is above. Returns the first such node on the way,
/// whose subtree holds every other one, or `None` where the tree holds none.
pub fn binary_search_for_tree<'a, V, K>(
    tree: &'a BinarySearchTree<V, K>,
    desired_value: &V,
) -> (r: Option<&'a BinarySearchTreeNode<V, K>>) where V: Eq + Ord, K: Hash + Eq + Copy
    requires
        tree.wf(),
    ensures
        match r {
            Some(node) => exists|i: int|
                {
                    &&& tree@.has(i)
                    &&& node@ == #[trigger] tree@.nodes[i]
                    &&& equivalent(node@.value, *desired_value)
                    &&& forall|j: int|
                        tree@.has(j) && equivalent(
                            (#[trigger] tree@.nodes[j]).value,
                            *desired_value,
                        ) ==> tree@.covers(i, j)
                },
            None => forall|j: int|
                tree@.has(j) ==> !equivalent((#[trigger] tree@.nodes[j]).value, *desired_value),
        },
{
    let ghost t = tree@;
    let mut current = tree.head_slot();
    proof {
        assert forall|j: int| t.has(j) implies t.covers(current as int, j) by {
            assert(t.node_linked(j));
        }
    }
    loop
        invariant
            tree.wf(),
            t == tree@,
            t.has(current as int),
            forall|j: int|
                t.has(j) && equivalent((#[trigger] t.nodes[j]).value, *desired_value) ==> t.covers(
                    current as int,
                    j,
                ),
        decreases t.high[current as int] - t.low[current as int],
    {
        let ghost c = current as int;
        let current_node = match tree.node(current) {
            Some(node) => node,
            None => {
                return None;
            },
        };
        let below = is_less(current_node.value(), desired_value);
        let above = is_greater(current_node.value(), desired_value);
        if !below && !above {
            proof {
                lemma_equivalent_exclusive(current_node@.value, *desired_value);
            }
            return Some(current_node);
        }
        let direction = if below {
            Directions::Right
        } else {
            Directions::Left
        };
        proof {
            assert(t.node_linked(c));
            assert(t.child_linked(c, direction));
            assert forall|j: int|
                t.has(j) && equivalent(
                    (#[trigger] t.nodes[j]).value,
                    *desired_value,
                ) implies if below {
                t.rank[j] > t.rank[c]
            } else {
                t.rank[j] < t.rank[c]
            } by {
                assert(t.node_linked(j));
                lemma_equivalent_exclusive(t.nodes[j].value, *desired_value);
                crate::order::lemma_less_or_at_most(t.nodes[c].value, *desired_value);
                crate::order::lemma_less_or_at_most(*desired_value, t.nodes[c].value);
                if below && t.rank[j] <= t.rank[c] {
                    if t.rank[j] < t.rank[c] {
                        assert(at_most(t.value_at(t.rank[j]), t.value_at(t.rank[c])));
                    } else {
                        assert(j == c);
                    }
                    lemma_at_most_then_less(t.nodes[j].value, t.nodes[c].value, *desired_value);
                }
                if !below && t.rank[j] >= t.rank[c] {
                    if t.rank[j] > t.rank[c] {
                        assert(at_most(t.value_at(t.rank[c]), t.value_at(t.rank[j])));
                    } else {
                        assert(j == c);
                    }
                    lemma_less_then_at_most(*desired_value, t.nodes[c].value, t.nodes[j].value);
                }
            }
        }
        match current_node.nodes()[direction.index()] {
            None => {
                return None;
            },
            Some(next_node) => {
                proof {
                    assert(t.node_linked(next_node as int));
                }
                current = next_node;
            },
        }
    }
}

} // verus!
