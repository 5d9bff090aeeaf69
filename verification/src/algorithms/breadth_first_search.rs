//! Breadth-first search in a graph.

use crate::data_structures::graph::{Graph, GraphNode};
use crate::data_structures::queue::Queue;
use std::collections::HashMap;
use std::hash::Hash;
use vstd::prelude::*;
use vstd::std_specs::hash::obeys_key_model;

verus! {

/// Node `from` is in the graph and points to `to`.
pub open spec fn points_to<G, N, K>(graph: &G, from: K, to: K) -> bool where
    G: Graph<N, K>,
    N: GraphNode<Id = K>,
 {
    &&& graph.contents().contains_key(from)
    &&& graph.contents()[from].targets() is Some
    &&& graph.contents()[from].targets().unwrap().contains(to)
}

/// `path` leads from node to node along the pointers of the graph; only its
/// last id may name no node.
pub open spec fn is_path<G, N, K>(graph: &G, path: Seq<K>) -> bool where
    G: Graph<N, K>,
    N: GraphNode<Id = K>,
 {
    &&& path.len() >= 2
    &&& forall|i: int| 0 <= i < path.len() - 1 ==> points_to(graph, #[trigger] path[i], path[i + 1])
}

/// Some path of `steps` steps leads from `start` to `id`.
pub open spec fn arrives_in<G, N, K>(graph: &G, start: K, id: K, steps: int) -> bool where
    G: Graph<N, K>,
    N: GraphNode<Id = K>,
 {
    exists|path: Seq<K>| #[trigger]
        is_path(graph, path) && path.len() == steps + 1 && path[0] == start && path.last() == id
}

/// Some path of at least one step leads from `start` to `id`.
pub open spec fn arrives<G, N, K>(graph: &G, start: K, id: K) -> bool where
    G: Graph<N, K>,
    N: GraphNode<Id = K>,
 {
    exists|steps: int| #[trigger] arrives_in(graph, start, id, steps)
}

/// `predicate` accepts every value.
pub open spec fn total<T, P: Fn(&T) -> bool>(predicate: P) -> bool {
    forall|value: &T| #[trigger] predicate.requires((value,))
}

/// `predicate` has refused the value of the node under `id`.
pub open spec fn refused<G, N, K, T, P>(graph: &G, predicate: P, id: K) -> bool where
    G: Graph<N, K>,
    N: GraphNode<Value = T, Id = K>,
    P: Fn(&T) -> bool,
 {
    predicate.ensures((&graph.contents()[id].own_value(),), false)
}

/// `predicate` has refused the value of every node that a path of fewer
/// than `steps` steps leads to from `start`.
pub open spec fn refused_nearer<G, N, K, T, P>(
    graph: &G,
    start: K,
    predicate: P,
    steps: int,
) -> bool where G: Graph<N, K>, N: GraphNode<Value = T, Id = K>, P: Fn(&T) -> bool {
    forall|id: K, nearer: int|
        nearer < steps && #[trigger] arrives_in(graph, start, id, nearer)
            && graph.contents().contains_key(id) ==> refused(graph, predicate, id)
}

/// The node under `to` has been checked, or waits in the queue, at no more
/// than `limit` steps.
spec fn met<K>(checked: Map<K, int>, queue: Seq<K>, depths: Seq<int>, to: K, limit: int) -> bool {
    ||| checked.contains_key(to) && checked[to] <= limit
    ||| exists|j: int| 0 <= j < queue.len() && #[trigger] queue[j] == to && depths[j] <= limit
}

/// One more step at the end of a path gives a path.
proof fn lemma_path_grows<G, N, K>(graph: &G, start: K, via: K, to: K, steps: int) where
    G: Graph<N, K>,
    N: GraphNode<Id = K>,

    requires
        arrives_in(graph, start, via, steps) || (via == start && steps == 0),
        points_to(graph, via, to),
    ensures
        arrives_in(graph, start, to, steps + 1),
{
    if via == start && steps == 0 {
        let path = seq![start, to];
        assert(is_path(graph, path));
        assert(path.len() == steps + 2 && path[0] == start && path.last() == to);
    } else {
        let before = choose|path: Seq<K>| #[trigger]
            is_path(graph, path) && path.len() == steps + 1 && path[0] == start && path.last()
                == via;
        let path = before.push(to);
        assert forall|i: int| 0 <= i < path.len() - 1 implies points_to(
            graph,
            #[trigger] path[i],
            path[i + 1],
        ) by {
            if i < before.len() - 1 {
                assert(points_to(graph, before[i], before[i + 1]));
            }
        }
        assert(is_path(graph, path));
        assert(path.len() == steps + 2 && path[0] == start && path.last() == to);
    }
}

/// What the search knows of the nodes it has checked: each is in the graph
/// and was refused, and each node that `start` or a checked node points to
/// is itself checked, no more than one step further out, unless it waits in
/// the queue, where nothing waits at fewer than `front` steps.
spec fn layered<G, N, K, T, P>(
    graph: &G,
    start: K,
    predicate: P,
    checked: Map<K, int>,
    front: int,
) -> bool where G: Graph<N, K>, N: GraphNode<Value = T, Id = K>, P: Fn(&T) -> bool {
    &&& forall|id: K| #[trigger]
        checked.contains_key(id) ==> graph.contents().contains_key(id) && refused(
            graph,
            predicate,
            id,
        )
    &&& forall|to: K|
        #[trigger] points_to(graph, start, to) && graph.contents().contains_key(to) ==> {
            ||| checked.contains_key(to) && checked[to] <= 1
            ||| front <= 1
        }
    &&& forall|from: K, to: K|
        checked.contains_key(from) && #[trigger] points_to(graph, from, to)
            && graph.contents().contains_key(to) ==> {
            ||| checked.contains_key(to) && checked[to] <= checked[from] + 1
            ||| front <= checked[from] + 1
        }
}

/// Every node that a path of fewer than `front` steps leads to has been
/// checked.
proof fn lemma_nearer_checked<G, N, K, T, P>(
    graph: &G,
    start: K,
    predicate: P,
    checked: Map<K, int>,
    front: int,
    path: Seq<K>,
    upto: int,
) where G: Graph<N, K>, N: GraphNode<Value = T, Id = K>, P: Fn(&T) -> bool
    requires
        layered(graph, start, predicate, checked, front),
        is_path(graph, path),
        path[0] == start,
        1 <= upto < path.len(),
        upto < front,
        graph.contents().contains_key(path[upto]),
    ensures
        checked.contains_key(path[upto]),
        checked[path[upto]] <= upto,
    decreases upto,
{
    assert(points_to(graph, path[upto - 1], path[upto]));
    if upto > 1 {
        lemma_nearer_checked(graph, start, predicate, checked, front, path, upto - 1);
    }
}

/// Searches the graph layer by layer: first the nodes that the node under
/// `start_node_id` points to, then the nodes that those point to, and so
/// on, each node once. Returns the first node it meets whose value
/// `predicate` accepts: a path from the start leads to it, and `predicate`
/// has refused every node that a shorter path leads to. Returns `None`
/// where there is no start node, where it points nowhere, or where
/// `predicate` refuses the value of every node that a path leads to.
pub fn breadth_first_search<'a, K, G, N, T, P>(start_node_id: K, graph: &'a G, predicate: P) -> (r:
    Option<&'a N>) where
    G: Graph<N, K>,
    N: GraphNode<Value = T, Id = K>,
    K: Eq + Hash + Copy,
    P: Fn(&T) -> bool,

    requires
        graph.sound(),
        obeys_key_model::<K>(),
        total::<T, P>(predicate),
    ensures
        match r {
            Some(node) => exists|id: K, steps: int|
                {
                    &&& #[trigger] arrives_in(graph, start_node_id, id, steps)
                    &&& graph.contents().contains_key(id)
                    &&& *node == graph.contents()[id]
                    &&& predicate.ensures((&node.own_value(),), true)
                    &&& refused_nearer(graph, start_node_id, predicate, steps)
                },
            None => forall|id: K|
                #[trigger] arrives(graph, start_node_id, id) && graph.contents().contains_key(id)
                    ==> refused(graph, predicate, id),
        },
{
    let mut checked_nodes: HashMap<K, bool> = HashMap::new();
    let head_node = match graph.get(&start_node_id) {
        Some(node) => node,
        None => {
            proof {
                assert forall|id: K, steps: int| #[trigger]
                    arrives_in(graph, start_node_id, id, steps) implies false by {
                    let path = choose|path: Seq<K>| #[trigger]
                        is_path(graph, path) && path.len() == steps + 1 && path[0] == start_node_id
                            && path.last() == id;
                    assert(points_to(graph, path[0], path[1]));
                }
            }
            return None;
        },
    };
    let first = match head_node.nodes() {
        Some(ids) => ids,
        None => {
            proof {
                assert forall|id: K, steps: int| #[trigger]
                    arrives_in(graph, start_node_id, id, steps) implies false by {
                    let path = choose|path: Seq<K>| #[trigger]
                        is_path(graph, path) && path.len() == steps + 1 && path[0] == start_node_id
                            && path.last() == id;
                    assert(points_to(graph, path[0], path[1]));
                }
            }
            return None;
        },
    };
    let mut queue = Queue::from(first.as_slice());
    // For each waiting id, the number of steps at which it was met.
    let ghost mut depths: Seq<int> = Seq::new(queue@.len(), |i: int| 1int);
    // For each checked id, the number of steps at which it was checked.
    let ghost mut checked: Map<K, int> = Map::empty();
    // The number of steps of the id taken from the queue last.
    let ghost mut front: int = 1;
    proof {
        graph.lemma_finite();
        assert forall|i: int| 0 <= i < queue@.len() implies arrives_in(
            graph,
            start_node_id,
            #[trigger] queue@[i],
            depths[i],
        ) by {
            assert(first@.contains(queue@[i]));
            lemma_path_grows(graph, start_node_id, start_node_id, queue@[i], 0);
        }
        assert forall|to: K| #[trigger] points_to(graph, start_node_id, to) implies met(
            checked,
            queue@,
            depths,
            to,
            1,
        ) by {
            let j = choose|j: int| 0 <= j < first@.len() && first@[j] == to;
            assert(queue@[j] == to);
        }
    }
    loop
        invariant
            graph.sound(),
            obeys_key_model::<K>(),
            total::<T, P>(predicate),
            graph.contents().dom().finite(),
            checked.dom() == checked_nodes@.dom(),
            depths.len() == queue@.len(),
            front >= 1,
            forall|i: int|
                0 <= i < queue@.len() ==> arrives_in(
                    graph,
                    start_node_id,
                    #[trigger] queue@[i],
                    depths[i],
                ),
            forall|i: int| 0 <= i < depths.len() ==> front <= #[trigger] depths[i] <= front + 1,
            forall|i: int, j: int| 0 <= i < j < depths.len() ==> #[trigger] depths[i] <= #[trigger] depths[j],
            forall|id: K| #[trigger]
                checked.contains_key(id) ==> graph.contents().contains_key(id) && refused(
                    graph,
                    predicate,
                    id,
                ) && checked[id] <= front,
            forall|to: K|
                #[trigger] points_to(graph, start_node_id, to) && graph.contents().contains_key(to)
                    ==> met(checked, queue@, depths, to, 1),
            forall|from: K, to: K|
                checked.contains_key(from) && #[trigger] points_to(graph, from, to)
                    && graph.contents().contains_key(to) ==> met(
                    checked,
                    queue@,
                    depths,
                    to,
                    checked[from] + 1,
                ),
        decreases graph.contents().dom().difference(checked_nodes@.dom()).len(), queue@.len(),
    {
        let ghost waiting = queue@;
        let ghost waited = depths;
        let ghost before = checked;
        let id = match queue.take() {
            Some(id) => id,
            None => {
                proof {
                    assert forall|id: K|
                        #[trigger] arrives(graph, start_node_id, id)
                            && graph.contents().contains_key(id) implies refused(
                        graph,
                        predicate,
                        id,
                    ) by {
                        let steps = choose|steps: int| #[trigger]
                            arrives_in(graph, start_node_id, id, steps);
                        let path = choose|path: Seq<K>| #[trigger]
                            is_path(graph, path) && path.len() == steps + 1 && path[0]
                                == start_node_id && path.last() == id;
                        lemma_unbounded(graph, start_node_id, predicate, checked, path, steps);
                    }
                }
                return None;
            },
        };
        let ghost depth = waited[0];
        proof {
            depths = waited.drop_first();
            front = depth;
            assert(waiting[0] == *id);
            assert forall|i: int| 0 <= i < queue@.len() implies arrives_in(
                graph,
                start_node_id,
                #[trigger] queue@[i],
                depths[i],
            ) by {
                assert(queue@[i] == waiting[i + 1]);
                assert(depths[i] == waited[i + 1]);
            }
            assert forall|i: int| 0 <= i < depths.len() implies front <= #[trigger] depths[i]
                <= front + 1 by {
                assert(depths[i] == waited[i + 1]);
                assert(waited[0] <= waited[i + 1]);
            }
            assert forall|i: int, j: int| 0 <= i < j < depths.len() implies #[trigger] depths[i]
                <= #[trigger] depths[j] by {
                assert(depths[i] == waited[i + 1]);
                assert(depths[j] == waited[j + 1]);
                assert(waited[i + 1] <= waited[j + 1]);
            }
        }
        // Several nodes may point to one node, and nodes may point to each
        // other: a node that was checked before is passed over.
        if !checked_nodes.contains_key(id) {
            match graph.get(id) {
                Some(queue_item) => {
                    if predicate(queue_item.value()) {
                        proof {
                            assert(arrives_in(graph, start_node_id, *id, depth));
                            lemma_layers(
                                graph,
                                start_node_id,
                                predicate,
                                before,
                                depth,
                                waiting,
                                waited,
                            );
                            assert forall|other: K, nearer: int|
                                nearer < depth && #[trigger] arrives_in(
                                    graph,
                                    start_node_id,
                                    other,
                                    nearer,
                                ) && graph.contents().contains_key(other) implies refused(
                                graph,
                                predicate,
                                other,
                            ) by {
                                let path = choose|path: Seq<K>| #[trigger]
                                    is_path(graph, path) && path.len() == nearer + 1 && path[0]
                                        == start_node_id && path.last() == other;
                                lemma_nearer_checked(
                                    graph,
                                    start_node_id,
                                    predicate,
                                    before,
                                    depth,
                                    path,
                                    nearer,
                                );
                            }
                        }
                        return Some(queue_item);
                    }
                    checked_nodes.insert(*id, true);
                    let ghost taken = queue@;
                    let ghost taken_depths = depths;
                    proof {
                        checked = before.insert(*id, depth);
                        assert(checked.dom() =~= checked_nodes@.dom());
                    }
                    match queue_item.nodes() {
                        Some(nodes) => {
                            queue.append(nodes.as_slice());
                            proof {
                                depths = taken_depths + Seq::new(nodes@.len(), |i: int| depth + 1);
                                assert forall|i: int| 0 <= i < queue@.len() implies arrives_in(
                                    graph,
                                    start_node_id,
                                    #[trigger] queue@[i],
                                    depths[i],
                                ) by {
                                    if i >= taken.len() {
                                        assert(nodes@[i - taken.len()] == queue@[i]);
                                        assert(nodes@.contains(queue@[i]));
                                        lemma_path_grows(
                                            graph,
                                            start_node_id,
                                            *id,
                                            queue@[i],
                                            depth,
                                        );
                                    } else {
                                        assert(queue@[i] == taken[i]);
                                        assert(depths[i] == taken_depths[i]);
                                    }
                                }
                                assert forall|i: int, j: int|
                                    0 <= i < j < depths.len() implies #[trigger] depths[i]
                                    <= #[trigger] depths[j] by {
                                    if j < taken.len() {
                                        assert(taken_depths[i] <= taken_depths[j]);
                                    } else if i < taken.len() {
                                        assert(depths[i] == taken_depths[i]);
                                    }
                                }
                                assert forall|to: K| nodes@.contains(to) implies met(
                                    checked,
                                    queue@,
                                    depths,
                                    to,
                                    depth + 1,
                                ) by {
                                    let i = choose|i: int| 0 <= i < nodes@.len() && nodes@[i] == to;
                                    assert(queue@[taken.len() + i] == to);
                                    assert(depths[taken.len() + i] == depth + 1);
                                }
                            }
                        },
                        None => {},
                    }
                    proof {
                        let unchecked = graph.contents().dom().difference(before.dom());
                        let after = graph.contents().dom().difference(checked_nodes@.dom());
                        assert(after =~= unchecked.remove(*id));
                        assert(unchecked.contains(*id));
                        assert(queue@.subrange(0, waiting.len() - 1) =~= waiting.drop_first());
                        assert(depths.subrange(0, waiting.len() - 1) =~= waited.drop_first());
                        assert forall|from: K, to: K|
                            checked.contains_key(from) && #[trigger] points_to(graph, from, to)
                                && graph.contents().contains_key(to) implies met(
                            checked,
                            queue@,
                            depths,
                            to,
                            checked[from] + 1,
                        ) by {
                            if from == *id {
                                assert(graph.contents()[from].targets().unwrap().contains(to));
                            } else {
                                lemma_still_met(
                                    waiting,
                                    waited,
                                    queue@,
                                    depths,
                                    before,
                                    *id,
                                    to,
                                    before[from] + 1,
                                );
                            }
                        }
                        assert forall|to: K|
                            #[trigger] points_to(graph, start_node_id, to)
                                && graph.contents().contains_key(to) implies met(
                            checked,
                            queue@,
                            depths,
                            to,
                            1,
                        ) by {
                            lemma_still_met(waiting, waited, queue@, depths, before, *id, to, 1);
                        }
                    }
                },
                None => {
                    proof {
                        assert forall|from: K, to: K|
                            checked.contains_key(from) && #[trigger] points_to(graph, from, to)
                                && graph.contents().contains_key(to) implies met(
                            checked,
                            queue@,
                            depths,
                            to,
                            checked[from] + 1,
                        ) by {
                            lemma_still_waits(waiting, waited, queue@, depths, before, to, before[from] + 1);
                        }
                        assert forall|to: K|
                            #[trigger] points_to(graph, start_node_id, to)
                                && graph.contents().contains_key(to) implies met(
                            checked,
                            queue@,
                            depths,
                            to,
                            1,
                        ) by {
                            lemma_still_waits(waiting, waited, queue@, depths, before, to, 1);
                        }
                    }
                },
            }
        } else {
            proof {
                assert forall|from: K, to: K|
                    checked.contains_key(from) && #[trigger] points_to(graph, from, to)
                        && graph.contents().contains_key(to) implies met(
                    checked,
                    queue@,
                    depths,
                    to,
                    checked[from] + 1,
                ) by {
                    lemma_still_waits(waiting, waited, queue@, depths, before, to, before[from] + 1);
                }
                assert forall|to: K|
                    #[trigger] points_to(graph, start_node_id, to) && graph.contents().contains_key(
                        to,
                    ) implies met(checked, queue@, depths, to, 1) by {
                    lemma_still_waits(waiting, waited, queue@, depths, before, to, 1);
                }
            }
        }
    }
}

/// A node that was checked or waited within `limit` steps before the front
/// of the queue was taken is checked or waits within `limit` steps
/// afterwards, where the node taken is checked, at no more steps than it
/// waited at, or names no node that anything points to.
proof fn lemma_still_waits<K>(
    waiting: Seq<K>,
    waited: Seq<int>,
    queue: Seq<K>,
    depths: Seq<int>,
    checked: Map<K, int>,
    to: K,
    limit: int,
)
    requires
        waiting.len() == waited.len(),
        waiting.len() >= 1,
        queue == waiting.drop_first(),
        depths == waited.drop_first(),
        forall|i: int, j: int| 0 <= i < j < waited.len() ==> #[trigger] waited[i] <= #[trigger] waited[j],
        met(checked, waiting, waited, to, limit),
        to == waiting[0] ==> checked.contains_key(to) && checked[to] <= waited[0],
    ensures
        met(checked, queue, depths, to, limit),
{
    if !(checked.contains_key(to) && checked[to] <= limit) {
        let j = choose|j: int| 0 <= j < waiting.len() && #[trigger] waiting[j] == to && waited[j] <= limit;
        if j > 0 {
            assert(queue[j - 1] == to && depths[j - 1] <= limit);
            assert(waited[0] <= waited[j]);
        }
    }
}

/// A node that was checked or waited within `limit` steps before the front
/// of the queue was taken and checked, and more was put at the back, is
/// checked or waits within `limit` steps afterwards.
proof fn lemma_still_met<K>(
    waiting: Seq<K>,
    waited: Seq<int>,
    queue: Seq<K>,
    depths: Seq<int>,
    before: Map<K, int>,
    taken: K,
    to: K,
    limit: int,
)
    requires
        waiting.len() == waited.len(),
        waiting.len() >= 1,
        waiting[0] == taken,
        queue.len() == depths.len(),
        queue.len() >= waiting.len() - 1,
        queue.subrange(0, waiting.len() - 1) == waiting.drop_first(),
        depths.subrange(0, waiting.len() - 1) == waited.drop_first(),
        forall|i: int, j: int| 0 <= i < j < waited.len() ==> #[trigger] waited[i] <= #[trigger] waited[j],
        met(before, waiting, waited, to, limit),
        !before.contains_key(taken),
    ensures
        met(before.insert(taken, waited[0]), queue, depths, to, limit),
{
    let checked = before.insert(taken, waited[0]);
    if !(before.contains_key(to) && before[to] <= limit) {
        let j = choose|j: int| 0 <= j < waiting.len() && #[trigger] waiting[j] == to && waited[j] <= limit;
        if j == 0 {
            assert(checked[to] == waited[0]);
        } else {
            assert(waited[0] <= waited[j]);
            assert(queue.subrange(0, waiting.len() - 1)[j - 1] == queue[j - 1]);
            assert(waiting.drop_first()[j - 1] == waiting[j]);
            assert(depths.subrange(0, waiting.len() - 1)[j - 1] == depths[j - 1]);
            assert(waited.drop_first()[j - 1] == waited[j]);
            assert(queue[j - 1] == to && depths[j - 1] <= limit);
        }
    }
}

/// With the front of the queue at `depth` steps, every node that the start
/// or a checked node points to is checked, no more than one step further
/// out, or no nearer than `depth`.
proof fn lemma_layers<G, N, K, T, P>(
    graph: &G,
    start: K,
    predicate: P,
    checked: Map<K, int>,
    depth: int,
    waiting: Seq<K>,
    waited: Seq<int>,
) where G: Graph<N, K>, N: GraphNode<Value = T, Id = K>, P: Fn(&T) -> bool
    requires
        waiting.len() == waited.len(),
        waiting.len() >= 1,
        depth == waited[0],
        forall|i: int, j: int| 0 <= i < j < waited.len() ==> #[trigger] waited[i] <= #[trigger] waited[j],
        forall|id: K| #[trigger]
            checked.contains_key(id) ==> graph.contents().contains_key(id) && refused(
                graph,
                predicate,
                id,
            ),
        forall|to: K|
            #[trigger] points_to(graph, start, to) && graph.contents().contains_key(to) ==> met(
                checked,
                waiting,
                waited,
                to,
                1,
            ),
        forall|from: K, to: K|
            checked.contains_key(from) && #[trigger] points_to(graph, from, to)
                && graph.contents().contains_key(to) ==> met(
                checked,
                waiting,
                waited,
                to,
                checked[from] + 1,
            ),
    ensures
        layered(graph, start, predicate, checked, depth),
{
    assert forall|to: K|
        #[trigger] points_to(graph, start, to) && graph.contents().contains_key(to) implies {
        ||| checked.contains_key(to) && checked[to] <= 1
        ||| depth <= 1
    } by {
        assert(met(checked, waiting, waited, to, 1));
        if !(checked.contains_key(to) && checked[to] <= 1) {
            let j = choose|j: int| 0 <= j < waiting.len() && #[trigger] waiting[j] == to && waited[j] <= 1;
            assert(j == 0 || waited[0] <= waited[j]);
        }
    }
    assert forall|from: K, to: K|
        checked.contains_key(from) && #[trigger] points_to(graph, from, to)
            && graph.contents().contains_key(to) implies {
        ||| checked.contains_key(to) && checked[to] <= checked[from] + 1
        ||| depth <= checked[from] + 1
    } by {
        assert(met(checked, waiting, waited, to, checked[from] + 1));
        if !(checked.contains_key(to) && checked[to] <= checked[from] + 1) {
            let j = choose|j: int|
                0 <= j < waiting.len() && #[trigger] waiting[j] == to && waited[j] <= checked[from]
                    + 1;
            assert(j == 0 || waited[0] <= waited[j]);
        }
    }
}

/// Once nothing waits, every node that a path leads to has been checked.
proof fn lemma_unbounded<G, N, K, T, P>(
    graph: &G,
    start: K,
    predicate: P,
    checked: Map<K, int>,
    path: Seq<K>,
    steps: int,
) where G: Graph<N, K>, N: GraphNode<Value = T, Id = K>, P: Fn(&T) -> bool
    requires
        forall|id: K| #[trigger]
            checked.contains_key(id) ==> graph.contents().contains_key(id) && refused(
                graph,
                predicate,
                id,
            ),
        forall|to: K|
            #[trigger] points_to(graph, start, to) && graph.contents().contains_key(to)
                ==> checked.contains_key(to) && checked[to] <= 1,
        forall|from: K, to: K|
            checked.contains_key(from) && #[trigger] points_to(graph, from, to)
                && graph.contents().contains_key(to) ==> checked.contains_key(to) && checked[to]
                <= checked[from] + 1,
        is_path(graph, path),
        path.len() == steps + 1,
        path[0] == start,
        graph.contents().contains_key(path.last()),
    ensures
        refused(graph, predicate, path.last()),
{
    assert(layered(graph, start, predicate, checked, steps + 1));
    lemma_nearer_checked(graph, start, predicate, checked, steps + 1, path, steps);
}

} // verus!
