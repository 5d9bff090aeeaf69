//! Dijkstra's search for a cheap path in a weighted graph.
//!
//! The search works on arena slots. An edge is followed to the node that is
//! registered under the id the edge names. Every node is in one of three
//! states: untouched, open (a path to it is known and it has a cost), or
//! settled (its edges have been followed). In each round the cheapest open
//! node is settled, until that node is the finish or no node is open.

use crate::data_structures::weighted_graph::{WeightedGraph, WeightedGraphView};
use std::hash::Hash;
use vstd::prelude::*;

verus! {

/// Node `a` has an edge that names `b`.
pub open spec fn linked<K>(g: WeightedGraphView<K>, a: K, b: K) -> bool {
    &&& g.index.contains_key(a)
    &&& exists|e: int|
        0 <= e < g.nodes[g.index[a] as int].edges.len() && (
        #[trigger] g.nodes[g.index[a] as int].edges[e]).id == b
}

/// `path` leads from node to node along the edges of the graph.
pub open spec fn is_route<K>(g: WeightedGraphView<K>, path: Seq<K>) -> bool {
    &&& path.len() >= 1
    &&& forall|i: int| 0 <= i < path.len() - 1 ==> linked(g, #[trigger] path[i], path[i + 1])
}

/// Some route leads from `start` to `finish`.
pub open spec fn reachable<K>(g: WeightedGraphView<K>, start: K, finish: K) -> bool {
    exists|path: Seq<K>| #[trigger] is_route(g, path) && path[0] == start && path.last() == finish
}

/// The slot that the edge number `e` of the node in slot `u` leads to.
pub open spec fn target<K>(g: WeightedGraphView<K>, u: int, e: int) -> int {
    g.index[g.nodes[u].edges[e].id] as int
}

/// An edge of the node in slot `u` leads to slot `v`.
pub open spec fn steps<K>(g: WeightedGraphView<K>, u: int, v: int) -> bool {
    exists|e: int| 0 <= e < g.nodes[u].edges.len() && #[trigger] target(g, u, e) == v
}

/// The node in slot `v` is the one registered under its id.
pub open spec fn registered<K>(g: WeightedGraphView<K>, v: int) -> bool {
    g.index.contains_key(g.nodes[v].id) && g.index[g.nodes[v].id] == v
}

/// No edge has a weight below zero.
pub open spec fn nonnegative<K>(g: WeightedGraphView<K>) -> bool {
    forall|u: int, e: int|
        0 <= u < g.nodes.len() && 0 <= e < g.nodes[u].edges.len() ==> (
        #[trigger] g.nodes[u].edges[e]).weight >= 0
}

/// A walk through the graph: the slots it visits, and for each but the last
/// the number of the edge it leaves by.
pub struct Walk {
    pub nodes: Seq<int>,
    pub picks: Seq<int>,
}

impl Walk {
    /// Every pick is an edge of the node it is taken at and leads to the
    /// next node of the walk.
    pub open spec fn valid<K>(self, g: WeightedGraphView<K>) -> bool {
        &&& self.nodes.len() == self.picks.len() + 1
        &&& forall|i: int| 0 <= i < self.nodes.len() ==> 0 <= #[trigger] self.nodes[i] < g.nodes.len()
        &&& forall|i: int|
            0 <= i < self.picks.len() ==> 0 <= #[trigger] self.picks[i]
                < g.nodes[self.nodes[i]].edges.len() && target(g, self.nodes[i], self.picks[i])
                == self.nodes[i + 1]
    }

    /// The weight of the first `k` edges of the walk together.
    pub open spec fn cost_upto<K>(self, g: WeightedGraphView<K>, k: int) -> int
        decreases k,
    {
        if k <= 0 {
            0
        } else {
            self.cost_upto(g, k - 1) + g.nodes[self.nodes[k - 1]].edges[self.picks[k - 1]].weight
        }
    }

    /// The weight of all edges of the walk together.
    pub open spec fn cost<K>(self, g: WeightedGraphView<K>) -> int {
        self.cost_upto(g, self.picks.len() as int)
    }

    /// The walk is valid and no valid walk between the same two nodes costs
    /// less.
    pub open spec fn cheapest<K>(self, g: WeightedGraphView<K>) -> bool {
        &&& self.valid(g)
        &&& forall|other: Walk|
            #[trigger] other.valid(g) && other.nodes[0] == self.nodes[0] && other.nodes.last()
                == self.nodes.last() ==> self.cost(g) <= other.cost(g)
    }
}

/// The slots of the nodes registered under `ids`.
pub open spec fn slots_of<K>(g: WeightedGraphView<K>, ids: Seq<K>) -> Seq<int> {
    Seq::new(ids.len(), |i: int| g.index[ids[i]] as int)
}

/// Some choice of edges makes the nodes under `ids` a cheapest walk from
/// the first of them to the last.
pub open spec fn cheapest_route<K>(g: WeightedGraphView<K>, ids: Seq<K>) -> bool {
    exists|picks: Seq<int>| #[trigger] (Walk { nodes: slots_of(g, ids), picks }).cheapest(g)
}

/// No cost can exceed this much for each settled node.
#[verifier::inline]
pub open spec fn step_limit() -> int {
    2147483648
}

/// The state of a search.
struct Search {
    /// The cost of the cheapest known path to each open node.
    cost: Vec<Option<i128>>,
    /// The node before each touched node on the cheapest known path to it.
    parents: Vec<Option<usize>>,
    /// Which nodes are settled.
    done: Vec<bool>,
    /// For each settled node, how many nodes were settled before it.
    rank: Ghost<Seq<int>>,
    /// The slots of the settled nodes.
    settled: Ghost<Set<int>>,
    /// The cost at which each settled node was settled.
    settled_cost: Ghost<Seq<int>>,
    /// For each touched node, the number of the edge that leads to it from
    /// its parent.
    via: Ghost<Seq<int>>,
}

impl Search {
    spec fn open(&self, v: int) -> bool {
        self.cost@[v] is Some
    }

    /// A path to the finish is known.
    spec fn reached(&self, finish_slot: Option<usize>) -> bool {
        match finish_slot {
            Some(f) => self.parents@[f as int] is Some,
            None => false,
        }
    }

    /// The finish is not settled, unless it is the start.
    spec fn unsettled(&self, finish_slot: Option<usize>, s: int) -> bool {
        match finish_slot {
            Some(f) => f != s ==> !self.done@[f as int],
            None => true,
        }
    }

    /// `after` is this state once the edge number `e` of the settled node
    /// `node` has been followed to `to`, which it reaches at `new_cost`: `to`
    /// takes that cost and that parent where it is untouched, or open and
    /// dearer; nothing else changes.
    spec fn relaxes(&self, after: Search, to: int, node: int, e: int, new_cost: int) -> bool {
        let takes = !self.done@[to] && (self.cost@[to] is None || new_cost < self.cost@[to].unwrap());
        &&& after.done@ == self.done@
        &&& after.rank@ == self.rank@
        &&& after.settled@ == self.settled@
        &&& after.settled_cost@ == self.settled_cost@
        &&& after.cost@.len() == self.cost@.len()
        &&& after.parents@.len() == self.parents@.len()
        &&& after.via@.len() == self.via@.len()
        &&& forall|v: int|
            0 <= v < self.cost@.len() && v != to ==> #[trigger] after.cost@[v] == self.cost@[v]
        &&& forall|v: int|
            0 <= v < self.parents@.len() && v != to ==> #[trigger] after.parents@[v]
                == self.parents@[v]
        &&& forall|v: int| 0 <= v < self.via@.len() && v != to ==> #[trigger] after.via@[v] == self.via@[v]
        &&& if takes {
            &&& after.cost@[to] is Some
            &&& after.cost@[to].unwrap() == new_cost
            &&& after.parent_is(to, node)
            &&& after.via@[to] == e
        } else {
            &&& after.cost@[to] == self.cost@[to]
            &&& after.parents@[to] == self.parents@[to]
            &&& after.via@[to] == self.via@[to]
        }
    }

    /// The parent of `v` is `u`.
    spec fn parent_is(&self, v: int, u: int) -> bool {
        self.parents@[v] is Some && self.parents@[v].unwrap() as int == u
    }

    /// The nodes under `ids` lead from the start to the last of them, each
    /// the parent of the next.
    spec fn follows_parents<K>(&self, g: WeightedGraphView<K>, s: int, ids: Seq<K>) -> bool {
        let slots = slots_of(g, ids);
        &&& slots[0] == s
        &&& forall|i: int| 0 <= i < slots.len() ==> 0 <= #[trigger] slots[i] < g.nodes.len()
        &&& forall|i: int| 0 <= i < slots.len() - 1 ==> self.parent_is(#[trigger] slots[i + 1], slots[i])
    }

    /// The finish is open and no open node is cheaper.
    spec fn finish_is_lowest(&self, finish_slot: Option<usize>) -> bool {
        match finish_slot {
            Some(f) => f < self.cost@.len() && self.open(f as int) && forall|v: int|
                0 <= v < self.cost@.len() && #[trigger] self.open(v) ==> self.cost@[f as int].unwrap()
                    <= self.cost@[v].unwrap(),
            None => false,
        }
    }

    /// The cost of the cheapest known path to a touched node.
    spec fn price(&self, v: int) -> int {
        if self.done@[v] {
            self.settled_cost@[v]
        } else {
            self.cost@[v].unwrap() as int
        }
    }

    /// The price of every touched node is the price of its parent and the
    /// weight of the edge between them together; the start costs nothing.
    spec fn priced<K>(&self, g: WeightedGraphView<K>, s: int) -> bool {
        let n = g.nodes.len() as int;
        &&& self.settled_cost@.len() == n
        &&& self.via@.len() == n
        &&& self.settled_cost@[s] == 0
        &&& forall|v: int|
            0 <= v < n && (#[trigger] self.parents@[v]) is Some ==> {
                let u = self.parents@[v].unwrap() as int;
                &&& 0 <= self.via@[v] < g.nodes[u].edges.len()
                &&& target(g, u, self.via@[v]) == v
                &&& self.price(v) == self.settled_cost@[u] + g.nodes[u].edges[self.via@[v]].weight
            }
    }

    /// No settled node costs more than an open one, and no edge from a
    /// settled node would make its target cheaper. Where `hot` is `(u, e)`,
    /// the edges of `u` from number `e` on are left out.
    spec fn cheapest_first<K>(&self, g: WeightedGraphView<K>, hot: Option<(int, int)>) -> bool {
        let n = g.nodes.len() as int;
        &&& forall|u: int, v: int|
            0 <= u < n && 0 <= v < n && #[trigger] self.done@[u] && #[trigger] self.open(v)
                ==> self.settled_cost@[u] <= self.cost@[v].unwrap()
        &&& forall|u: int, e: int|
            0 <= u < n && self.done@[u] && 0 <= e < g.nodes[u].edges.len() ==> {
                ||| hot matches Some(h) && h.0 == u && h.1 <= e
                ||| self.price(#[trigger] target(g, u, e)) <= self.settled_cost@[u]
                    + g.nodes[u].edges[e].weight
            }
    }

    /// Where `hot` is `(u, e)`, the edges of the settled node `u` from
    /// number `e` on need not have been followed yet.
    spec fn followed<K>(&self, g: WeightedGraphView<K>, hot: Option<(int, int)>) -> bool {
        forall|u: int, e: int|
            0 <= u < g.nodes.len() && self.done@[u] && 0 <= e < g.nodes[u].edges.len() ==> {
                ||| hot matches Some(h) && h.0 == u && h.1 <= e
                ||| self.done@[#[trigger] target(g, u, e)]
                ||| self.open(target(g, u, e))
            }
    }

    spec fn inv<K>(&self, g: WeightedGraphView<K>, s: int) -> bool {
        let n = g.nodes.len() as int;
        &&& g.wf()
        &&& self.cost@.len() == n
        &&& self.parents@.len() == n
        &&& self.done@.len() == n
        &&& self.rank@.len() == n
        &&& 0 <= s < n
        &&& self.done@[s]
        &&& self.parents@[s] is None
        &&& self.settled@.finite()
        &&& forall|v: int| self.settled@.contains(v) <==> 0 <= v < n && self.done@[v]
        &&& forall|v: int|
            0 <= v < n && #[trigger] self.done@[v] ==> {
                &&& !self.open(v)
                &&& 0 <= self.rank@[v] < self.settled@.len()
                &&& (v != s ==> self.parents@[v] is Some)
                &&& registered(g, v)
            }
        &&& forall|v: int|
            0 <= v < n && #[trigger] self.open(v) ==> {
                &&& !self.done@[v]
                &&& self.parents@[v] is Some
                &&& registered(g, v)
                &&& -step_limit() * self.settled@.len() <= self.cost@[v].unwrap() <= step_limit()
                    * self.settled@.len()
            }
        &&& forall|v: int|
            0 <= v < n && (#[trigger] self.parents@[v]) is Some ==> {
                let u = self.parents@[v].unwrap() as int;
                &&& 0 <= u < n
                &&& self.done@[u]
                &&& steps(g, u, v)
                &&& (self.done@[v] ==> self.rank@[u] < self.rank@[v])
                &&& (self.done@[v] || self.open(v))
            }
    }
}

/// The settled nodes are among the `n` slots.
proof fn lemma_settled_count(settled: Set<int>, n: int)
    requires
        settled.finite(),
        0 <= n,
        forall|v: int| settled.contains(v) ==> 0 <= v < n,
    ensures
        settled.len() <= n,
{
    vstd::set_lib::lemma_int_range(0, n);
    vstd::set_lib::lemma_len_subset(settled, vstd::set_lib::set_int_range(0, n));
}

/// No open node is cheaper than the open node in slot `u`.
spec fn lowest_at(cost: Seq<Option<i128>>, u: int) -> bool {
    forall|w: int|
        0 <= w < cost.len() && (#[trigger] cost[w]) is Some ==> cost[u].unwrap() <= cost[w].unwrap()
}

/// The cheapest open node, the first of them where several cost the same;
/// `None` where no node is open or where that node is the finish.
fn get_lowest(cost: &Vec<Option<i128>>, finish: Option<usize>) -> (r: Option<usize>)
    ensures
        match r {
            Some(u) => {
                &&& u < cost@.len()
                &&& cost@[u as int] is Some
                &&& Some(u) != finish
                &&& lowest_at(cost@, u as int)
            },
            None => (forall|v: int| 0 <= v < cost@.len() ==> cost@[v] is None) || (match finish {
                Some(f) => f < cost@.len() && cost@[f as int] is Some && lowest_at(cost@, f as int),
                None => false,
            }),
        },
{
    let mut lowest: Option<usize> = None;
    let mut lowest_cost: i128 = 0;
    let mut v: usize = 0;
    while v < cost.len()
        invariant
            v <= cost@.len(),
            match lowest {
                Some(u) => u < v && cost@[u as int] == Some(lowest_cost) && forall|w: int|
                    0 <= w < v && (#[trigger] cost@[w]) is Some ==> lowest_cost <= cost@[w].unwrap(),
                None => forall|w: int| 0 <= w < v ==> cost@[w] is None,
            },
        decreases cost@.len() - v,
    {
        match cost[v] {
            Some(c) => {
                if lowest.is_none() || c < lowest_cost {
                    lowest = Some(v);
                    lowest_cost = c;
                }
            },
            None => {},
        }
        v = v + 1;
    }
    match (lowest, finish) {
        (Some(u), Some(f)) => {
            if u == f {
                None
            } else {
                lowest
            }
        },
        _ => lowest,
    }
}

/// The edge number `e` of the settled node `node` has just been followed
/// from `before` to `after`.
spec fn followed_one<K>(
    before: Search,
    after: Search,
    g: WeightedGraphView<K>,
    s: int,
    node: int,
    e: int,
) -> bool {
    &&& before.inv(g, s)
    &&& before.followed(g, Some((node, e)))
    &&& before.priced(g, s)
    &&& 0 <= node < g.nodes.len()
    &&& before.done@[node]
    &&& 0 <= e < g.nodes[node].edges.len()
    &&& before.settled@.len() >= 1
    &&& -step_limit() * (before.settled@.len() - 1) <= before.settled_cost@[node] <= step_limit()
        * (before.settled@.len() - 1)
    &&& before.relaxes(
        after,
        target(g, node, e),
        node,
        e,
        before.settled_cost@[node] + g.nodes[node].edges[e].weight,
    )
    &&& -step_limit() <= g.nodes[node].edges[e].weight <= step_limit()
}

/// Following one edge keeps the state consistent.
proof fn lemma_relax_inv<K>(
    before: Search,
    after: Search,
    g: WeightedGraphView<K>,
    s: int,
    node: int,
    e: int,
)
    requires
        followed_one(before, after, g, s, node, e),
    ensures
        after.inv(g, s),
        after.followed(g, Some((node, e + 1))),
{
    let to = target(g, node, e);
    assert(g.has(g.nodes[node].edges[e].node));
    assert(g.has(to));
    assert(steps(g, node, to));
    assert(registered(g, to));
    assert forall|u: int, f: int|
        0 <= u < g.nodes.len() && after.done@[u] && 0 <= f < g.nodes[u].edges.len() implies {
        ||| u == node && e + 1 <= f
        ||| after.done@[#[trigger] target(g, u, f)]
        ||| after.open(target(g, u, f))
    } by {
        if u == node && f == e {
        } else {
            assert(before.done@[target(g, u, f)] || before.open(target(g, u, f)) || (u == node
                && e <= f));
        }
    }
    assert forall|v: int| 0 <= v < g.nodes.len() && #[trigger] after.open(v) implies {
        &&& !after.done@[v]
        &&& after.parents@[v] is Some
        &&& registered(g, v)
        &&& -step_limit() * after.settled@.len() <= after.cost@[v].unwrap() <= step_limit()
            * after.settled@.len()
    } by {
        if v != to {
            assert(before.open(v));
        } else if before.open(v) {
        }
    }
    assert forall|v: int| 0 <= v < g.nodes.len() && #[trigger] after.done@[v] implies {
        &&& !after.open(v)
        &&& 0 <= after.rank@[v] < after.settled@.len()
        &&& (v != s ==> after.parents@[v] is Some)
        &&& registered(g, v)
    } by {
        assert(before.done@[v]);
    }
    assert forall|v: int| 0 <= v < g.nodes.len() && (#[trigger] after.parents@[v]) is Some implies {
        let u = after.parents@[v].unwrap() as int;
        &&& 0 <= u < g.nodes.len()
        &&& after.done@[u]
        &&& steps(g, u, v)
        &&& (after.done@[v] ==> after.rank@[u] < after.rank@[v])
        &&& (after.done@[v] || after.open(v))
    } by {
        if v != to {
            assert(before.parents@[v] is Some);
        } else if before.parents@[v] is Some {
        }
    }
}

/// Following one edge keeps every price the sum along the parents.
proof fn lemma_relax_priced<K>(
    before: Search,
    after: Search,
    g: WeightedGraphView<K>,
    s: int,
    node: int,
    e: int,
)
    requires
        followed_one(before, after, g, s, node, e),
    ensures
        after.priced(g, s),
{
    let to = target(g, node, e);
    assert(g.has(g.nodes[node].edges[e].node));
    assert forall|v: int| 0 <= v < g.nodes.len() && (#[trigger] after.parents@[v]) is Some implies {
        let u = after.parents@[v].unwrap() as int;
        &&& 0 <= after.via@[v] < g.nodes[u].edges.len()
        &&& target(g, u, after.via@[v]) == v
        &&& after.price(v) == after.settled_cost@[u] + g.nodes[u].edges[after.via@[v]].weight
    } by {
        if v != to || before.parents@[v] == after.parents@[v] && before.cost@[v] == after.cost@[v] {
            assert(before.parents@[v] is Some);
            assert(before.price(v) == after.price(v));
        }
    }
}

/// Following one edge of the node that was settled last keeps the settled
/// nodes the cheapest.
proof fn lemma_relax_cheapest<K>(
    before: Search,
    after: Search,
    g: WeightedGraphView<K>,
    s: int,
    node: int,
    e: int,
)
    requires
        followed_one(before, after, g, s, node, e),
        nonnegative(g),
        before.cheapest_first(g, Some((node, e))),
        forall|u: int|
            0 <= u < g.nodes.len() && #[trigger] before.done@[u] ==> before.settled_cost@[u]
                <= before.settled_cost@[node],
    ensures
        after.cheapest_first(g, Some((node, e + 1))),
{
    let to = target(g, node, e);
    let weight = g.nodes[node].edges[e].weight;
    assert(g.has(g.nodes[node].edges[e].node));
    assert(weight >= 0);
    assert forall|u: int, v: int|
        0 <= u < g.nodes.len() && 0 <= v < g.nodes.len() && #[trigger] after.done@[u]
            && #[trigger] after.open(v) implies after.settled_cost@[u] <= after.cost@[v].unwrap() by {
        assert(before.done@[u]);
        if before.open(v) && before.cost@[v] == after.cost@[v] {
        }
    }
    assert forall|u: int, f: int|
        0 <= u < g.nodes.len() && after.done@[u] && 0 <= f < g.nodes[u].edges.len() implies {
        ||| u == node && e + 1 <= f
        ||| after.price(#[trigger] target(g, u, f)) <= after.settled_cost@[u]
            + g.nodes[u].edges[f].weight
    } by {
        let t = target(g, u, f);
        if u == node && f == e {
            if after.done@[to] {
                assert(before.done@[to]);
            }
        } else if u == node && e < f {
        } else {
            assert(before.price(t) <= before.settled_cost@[u] + g.nodes[u].edges[f].weight);
            assert(before.done@[t] || before.open(t));
        }
    }
}

/// Follows the edges of the node in slot `node`, which has just been settled
/// at cost `node_cost`: an untouched target is opened, and an open target
/// that is cheaper by this way takes it.
fn calculate_cost<K>(
    graph: &WeightedGraph<K>,
    node: usize,
    node_cost: i128,
    search: &mut Search,
    Ghost(s): Ghost<int>,
) where K: Ord + Hash + Copy + Eq
    requires
        graph.wf(),
        old(search).inv(graph@, s),
        old(search).followed(graph@, Some((node as int, 0int))),
        node < graph@.nodes.len(),
        old(search).done@[node as int],
        old(search).settled@.len() >= 1,
        -step_limit() * (old(search).settled@.len() - 1) <= node_cost <= step_limit() * (old(
            search,
        ).settled@.len() - 1),
        old(search).settled@.len() <= usize::MAX,
        old(search).priced(graph@, s),
        node_cost == old(search).settled_cost@[node as int],
        nonnegative(graph@) ==> old(search).cheapest_first(graph@, Some((node as int, 0int))),
        nonnegative(graph@) ==> forall|u: int|
            0 <= u < graph@.nodes.len() && #[trigger] old(search).done@[u] ==> old(
                search,
            ).settled_cost@[u] <= node_cost,
    ensures
        final(search).inv(graph@, s),
        final(search).followed(graph@, None),
        final(search).settled@ == old(search).settled@,
        final(search).done@ == old(search).done@,
        final(search).priced(graph@, s),
        nonnegative(graph@) ==> final(search).cheapest_first(graph@, None),
{
    let ghost g = graph@;
    let current = match graph.node(node) {
        Some(current) => current,
        None => {
            return ;
        },
    };
    let edges = current.nodes();
    let mut e: usize = 0;
    while e < edges.len()
        invariant
            graph.wf(),
            g == graph@,
            search.inv(g, s),
            search.followed(g, Some((node as int, e as int))),
            node < g.nodes.len(),
            search.done@[node as int],
            search.settled@ == old(search).settled@,
            search.done@ == old(search).done@,
            search.settled@.len() >= 1,
            search.settled@.len() <= usize::MAX,
            -step_limit() * (search.settled@.len() - 1) <= node_cost <= step_limit() * (
            search.settled@.len() - 1),
            edges@.len() == g.nodes[node as int].edges.len(),
            forall|i: int| 0 <= i < edges@.len() ==> (#[trigger] edges@[i])@ == g.nodes[node as int].edges[i],
            e <= edges@.len(),
            search.priced(g, s),
            search.settled_cost@ == old(search).settled_cost@,
            node_cost == search.settled_cost@[node as int],
            nonnegative(g) ==> search.cheapest_first(g, Some((node as int, e as int))),
            nonnegative(g) ==> forall|u: int|
                0 <= u < g.nodes.len() && #[trigger] search.done@[u] ==> search.settled_cost@[u]
                    <= node_cost,
        decreases edges@.len() - e,
    {
        let child = &edges[e];
        let ghost before = *search;
        proof {
            assert(child@ == g.nodes[node as int].edges[e as int]);
            assert(g.has(g.nodes[node as int].edges[e as int].node));
        }
        let to = match graph.slot(child.id()) {
            Some(to) => to,
            None => {
                return ;
            },
        };
        proof {
            assert(to == target(g, node as int, e as int));
            assert(steps(g, node as int, to as int));
            assert(registered(g, to as int));
        }
        let child_weight = child.weight();
        let new_cost_to_child = node_cost + child_weight as i128;
        if !search.done[to] {
            let cheaper = match search.cost[to] {
                Some(current_min_cost_to_child) => new_cost_to_child < current_min_cost_to_child,
                None => true,
            };
            if cheaper {
                search.cost[to] = Some(new_cost_to_child);
                search.parents[to] = Some(node);
                search.via = Ghost(search.via@.update(to as int, e as int));
            }
        }
        proof {
            assert(child_weight == g.nodes[node as int].edges[e as int].weight);
            assert(before.relaxes(*search, to as int, node as int, e as int, new_cost_to_child as int));
            lemma_relax_inv(before, *search, g, s, node as int, e as int);
            lemma_relax_priced(before, *search, g, s, node as int, e as int);
            if nonnegative(g) {
                lemma_relax_cheapest(before, *search, g, s, node as int, e as int);
            }
        }
        e = e + 1;
    }
}

/// The ids on the way from the first node without a parent to `finish`,
/// read off the parents.
fn build_chain<K>(
    graph: &WeightedGraph<K>,
    finish: K,
    finish_slot: Option<usize>,
    search: &Search,
    Ghost(s): Ghost<int>,
) -> (chain: Vec<K>) where K: Ord + Hash + Copy + Eq
    requires
        graph.wf(),
        search.inv(graph@, s),
        match finish_slot {
            Some(f) => graph@.index.contains_key(finish) && graph@.index[finish] == f,
            None => !graph@.index.contains_key(finish),
        },
    ensures
        chain@.len() >= 1,
        chain@.last() == finish,
        is_route(graph@, chain@),
        chain@.len() > 1 ==> chain@[0] == graph@.nodes[s].id,
        chain@.len() > 1 <==> search.reached(finish_slot),
        chain@.len() > 1 ==> search.follows_parents(graph@, s, chain@),
{
    let ghost g = graph@;
    let mut backwards: Vec<K> = Vec::new();
    backwards.push(finish);
    let mut next_parent = match finish_slot {
        Some(f) => {
            proof {
                assert(g.has(f as int));
            }
            search.parents[f]
        },
        None => None,
    };
    let ghost mut at: int = match finish_slot {
        Some(f) => f as int,
        None => -1,
    };
    let ghost mut back: Seq<int> = seq![at];
    loop
        invariant_except_break
            graph.wf(),
            g == graph@,
            search.inv(g, s),
            backwards@.len() >= 1,
            backwards@[0] == finish,
            back.len() == backwards@.len(),
            back.last() == at,
            next_parent is Some ==> 0 <= at < g.nodes.len() && next_parent == search.parents@[at]
                && g.nodes[at].id == backwards@.last() && registered(g, at),
            forall|i: int|
                0 <= i < backwards@.len() - 1 ==> linked(
                    g,
                    #[trigger] backwards@[i + 1],
                    backwards@[i],
                ),
            backwards@.len() > 1 ==> next_parent is Some || at == s,
            backwards@.len() > 1 ==> search.reached(finish_slot),
            backwards@.len() == 1 ==> (next_parent is Some <==> search.reached(finish_slot)),
            backwards@.len() > 1 ==> forall|i: int|
                0 <= i < back.len() ==> 0 <= #[trigger] back[i] < g.nodes.len() && registered(
                    g,
                    back[i],
                ) && g.nodes[back[i]].id == backwards@[i],
            forall|i: int| 0 <= i < back.len() - 1 ==> search.parent_is(#[trigger] back[i], back[i + 1]),
        ensures
            backwards@.len() >= 1,
            backwards@[0] == finish,
            back.len() == backwards@.len(),
            forall|i: int|
                0 <= i < backwards@.len() - 1 ==> linked(
                    g,
                    #[trigger] backwards@[i + 1],
                    backwards@[i],
                ),
            backwards@.len() > 1 ==> back.last() == s,
            backwards@.len() > 1 <==> search.reached(finish_slot),
            backwards@.len() > 1 ==> forall|i: int|
                0 <= i < back.len() ==> 0 <= #[trigger] back[i] < g.nodes.len() && registered(
                    g,
                    back[i],
                ) && g.nodes[back[i]].id == backwards@[i],
            forall|i: int| 0 <= i < back.len() - 1 ==> search.parent_is(#[trigger] back[i], back[i + 1]),
        decreases
            (if next_parent is Some {
                if search.done@[at] {
                    search.rank@[at] + 1
                } else {
                    search.settled@.len() as int + 1
                }
            } else {
                0int
            }),
    {
        match next_parent {
            Some(parent) => {
                proof {
                    assert(search.parents@[at] is Some);
                    assert(search.done@[parent as int]);
                    assert(steps(g, parent as int, at));
                    let e = choose|e: int|
                        0 <= e < g.nodes[parent as int].edges.len() && #[trigger] target(
                            g,
                            parent as int,
                            e,
                        ) == at;
                    assert(g.index.contains_key(g.nodes[parent as int].edges[e].id));
                    assert(g.nodes[parent as int].edges[e].id == g.nodes[at].id);
                    assert(registered(g, parent as int));
                    assert(linked(g, g.nodes[parent as int].id, g.nodes[at].id));
                }
                let node = match graph.node(parent) {
                    Some(node) => node,
                    None => {
                        break ;
                    },
                };
                let ghost before = backwards@;
                let ghost back_before = back;
                backwards.push(node.id());
                proof {
                    assert forall|i: int| 0 <= i < backwards@.len() - 1 implies linked(
                        g,
                        #[trigger] backwards@[i + 1],
                        backwards@[i],
                    ) by {
                        if i < before.len() - 1 {
                            assert(linked(g, before[i + 1], before[i]));
                        }
                    }
                    back = back_before.push(parent as int);
                    assert forall|i: int| 0 <= i < back.len() implies 0 <= #[trigger] back[i]
                        < g.nodes.len() && registered(g, back[i]) && g.nodes[back[i]].id
                        == backwards@[i] by {
                        if i < back_before.len() {
                            assert(back[i] == back_before[i]);
                            if back_before.len() == 1 {
                                assert(back[i] == at);
                            }
                        }
                    }
                    assert forall|i: int| 0 <= i < back.len() - 1 implies search.parent_is(
                        #[trigger] back[i],
                        back[i + 1],
                    ) by {
                        if i < back_before.len() - 1 {
                            assert(back[i] == back_before[i]);
                            assert(back[i + 1] == back_before[i + 1]);
                            assert(search.parent_is(back_before[i], back_before[i + 1]));
                        }
                    }
                    at = parent as int;
                }
                next_parent = search.parents[parent];
            },
            None => {
                break ;
            },
        }
    }
    let mut chain: Vec<K> = Vec::new();
    let mut i = backwards.len();
    while i > 0
        invariant
            i <= backwards@.len(),
            chain@.len() == backwards@.len() - i,
            forall|j: int| 0 <= j < chain@.len() ==> chain@[j] == backwards@[backwards@.len() - 1 - j],
        decreases i,
    {
        i = i - 1;
        chain.push(backwards[i]);
    }
    proof {
        assert forall|j: int| 0 <= j < chain@.len() - 1 implies linked(
            g,
            #[trigger] chain@[j],
            chain@[j + 1],
        ) by {
            let k = backwards@.len() - 2 - j;
            assert(linked(g, backwards@[k + 1], backwards@[k]));
        }
        if chain@.len() > 1 {
            let slots = slots_of(g, chain@);
            let len = chain@.len() as int;
            assert forall|j: int| 0 <= j < len implies slots[j] == back[len - 1 - j] by {
                assert(registered(g, back[len - 1 - j]));
            }
            assert forall|j: int| 0 <= j < len - 1 implies search.parent_is(
                #[trigger] slots[j + 1],
                slots[j],
            ) by {
                assert(search.parent_is(back[len - 2 - j], back[len - 1 - j]));
            }
            assert(chain@[0] == g.nodes[s].id);
        }
    }
    chain
}

/// Every node that a route from the start leads to is in a set that holds
/// the start and every node that an edge from one of its own leads to.
proof fn lemma_routes_stay<K>(g: WeightedGraphView<K>, closed: Set<int>, path: Seq<K>, upto: int)
    requires
        g.wf(),
        is_route(g, path),
        0 <= upto < path.len(),
        g.index.contains_key(path[0]),
        closed.contains(g.index[path[0]] as int),
        forall|u: int, e: int|
            closed.contains(u) && 0 <= u < g.nodes.len() && 0 <= e < g.nodes[u].edges.len()
                ==> closed.contains(#[trigger] target(g, u, e)),
    ensures
        g.index.contains_key(path[upto]),
        closed.contains(g.index[path[upto]] as int),
    decreases upto,
{
    if upto > 0 {
        lemma_routes_stay(g, closed, path, upto - 1);
        let a = path[upto - 1];
        assert(linked(g, a, path[upto]));
        let u = g.index[a] as int;
        let e = choose|e: int|
            0 <= e < g.nodes[u].edges.len() && (#[trigger] g.nodes[u].edges[e]).id == path[upto];
        assert(g.has(u));
        assert(g.has(g.nodes[u].edges[e].node));
        assert(closed.contains(target(g, u, e)));
    }
}

/// The walk along the parents costs what its last node is priced at.
proof fn lemma_chain_price<K>(search: Search, g: WeightedGraphView<K>, s: int, w: Walk, k: int)
    requires
        search.inv(g, s),
        search.priced(g, s),
        w.nodes.len() == w.picks.len() + 1,
        w.nodes[0] == s,
        forall|i: int| 0 <= i < w.nodes.len() ==> 0 <= #[trigger] w.nodes[i] < g.nodes.len(),
        forall|i: int| 0 <= i < w.picks.len() ==> search.parent_is(#[trigger] w.nodes[i + 1], w.nodes[i]),
        forall|i: int| 0 <= i < w.picks.len() ==> #[trigger] w.picks[i] == search.via@[w.nodes[i + 1]],
        0 <= k <= w.picks.len(),
    ensures
        w.valid(g),
        w.cost_upto(g, k) == search.price(w.nodes[k]),
    decreases k,
{
    assert forall|i: int| 0 <= i < w.picks.len() implies 0 <= #[trigger] w.picks[i]
        < g.nodes[w.nodes[i]].edges.len() && target(g, w.nodes[i], w.picks[i]) == w.nodes[i
        + 1] by {
        assert(search.parent_is(w.nodes[i + 1], w.nodes[i]));
    }
    if k > 0 {
        lemma_chain_price(search, g, s, w, k - 1);
        assert(search.parent_is(w.nodes[(k - 1) + 1], w.nodes[k - 1]));
        assert(w.picks[k - 1] == search.via@[w.nodes[k]]);
        assert(search.done@[w.nodes[k - 1]]);
    }
}

/// Once every edge of every settled node has been followed, no walk from
/// the start reaches a settled node for less than the node was settled at,
/// nor an unsettled node for less than the cheapest open node costs.
proof fn lemma_walk_bound<K>(search: Search, g: WeightedGraphView<K>, s: int, w: Walk, k: int)
    requires
        search.inv(g, s),
        search.followed(g, None),
        search.priced(g, s),
        search.cheapest_first(g, None),
        nonnegative(g),
        w.valid(g),
        w.nodes[0] == s,
        0 <= k <= w.picks.len(),
    ensures
        search.done@[w.nodes[k]] ==> search.settled_cost@[w.nodes[k]] <= w.cost_upto(g, k),
        !search.done@[w.nodes[k]] ==> exists|y: int|
            0 <= y < g.nodes.len() && #[trigger] search.open(y) && search.cost@[y].unwrap()
                <= w.cost_upto(g, k),
    decreases k,
{
    if k > 0 {
        lemma_walk_bound(search, g, s, w, k - 1);
        let u = w.nodes[k - 1];
        let e = w.picks[k - 1];
        let v = w.nodes[k];
        assert(target(g, u, e) == v);
        assert(g.nodes[u].edges[e].weight >= 0);
        if search.done@[u] {
            assert(search.done@[target(g, u, e)] || search.open(target(g, u, e)));
            assert(search.price(target(g, u, e)) <= search.settled_cost@[u]
                + g.nodes[u].edges[e].weight);
            if !search.done@[v] {
                assert(search.open(v));
            }
        } else {
            let y = choose|y: int|
                0 <= y < g.nodes.len() && #[trigger] search.open(y) && search.cost@[y].unwrap()
                    <= w.cost_upto(g, k - 1);
            if search.done@[v] {
                assert(search.settled_cost@[v] <= search.cost@[y].unwrap());
            } else {
                assert(search.open(y));
            }
        }
    }
}

/// Searches for a cheapest path from the node under `start` to the node
/// under `finish` and returns the ids along it, `start` first. Where no
/// route leads from `start` to `finish`, or where they are the same, the
/// result holds `finish` alone. Where an edge has a weight below zero the
/// result is still a route, but need not be a cheapest one.
pub fn dijkstra_search<K>(graph: &WeightedGraph<K>, start: K, finish: K) -> (r: Vec<K>) where
    K: Ord + Hash + Copy + Eq,

    requires
        graph.wf(),
        graph@.index.contains_key(start),
    ensures
        r@.len() >= 1,
        r@.last() == finish,
        is_route(graph@, r@),
        r@.len() > 1 ==> r@[0] == start,
        r@.len() > 1 <==> start != finish && reachable(graph@, start, finish),
        r@.len() > 1 && nonnegative(graph@) ==> cheapest_route(graph@, r@),
{
    let ghost g = graph@;
    let n = graph.slots();
    let start_slot = match graph.slot(&start) {
        Some(slot) => slot,
        None => {
            let mut chain = Vec::new();
            chain.push(finish);
            return chain;
        },
    };
    let finish_slot = graph.slot(&finish);
    let mut cost: Vec<Option<i128>> = Vec::new();
    let mut parents: Vec<Option<usize>> = Vec::new();
    let mut done: Vec<bool> = Vec::new();
    let mut v: usize = 0;
    while v < n
        invariant
            v <= n,
            cost@.len() == v,
            parents@.len() == v,
            done@.len() == v,
            forall|w: int| 0 <= w < v ==> (#[trigger] cost@[w]) is None,
            forall|w: int| 0 <= w < v ==> (#[trigger] parents@[w]) is None,
            forall|w: int| 0 <= w < v ==> !#[trigger] done@[w],
        decreases n - v,
    {
        cost.push(None);
        parents.push(None);
        done.push(false);
        v = v + 1;
    }
    done[start_slot] = true;
    let ghost s = start_slot as int;
    let mut search = Search {
        cost,
        parents,
        done,
        rank: Ghost(Seq::new(n as nat, |v: int| 0int)),
        settled: Ghost(Set::empty().insert(s)),
        settled_cost: Ghost(Seq::new(n as nat, |v: int| 0int)),
        via: Ghost(Seq::new(n as nat, |v: int| 0int)),
    };
    proof {
        assert(search.settled@.len() == 1);
        assert(registered(g, s));
        assert forall|v: int| 0 <= v < n implies !search.open(v) by {
            assert(search.cost@[v] is None);
        }
        assert forall|v: int| 0 <= v < n implies search.parents@[v] is None by {}
        assert(search.inv(g, s));
        assert(search.followed(g, Some((s, 0int))));
        assert(search.priced(g, s));
        assert(search.cheapest_first(g, Some((s, 0int))));
    }
    calculate_cost(graph, start_slot, 0, &mut search, Ghost(s));
    loop
        invariant_except_break
            graph.wf(),
            g == graph@,
            n == g.nodes.len(),
            search.inv(g, s),
            search.followed(g, None),
            search.priced(g, s),
            nonnegative(g) ==> search.cheapest_first(g, None),
            match finish_slot {
                Some(f) => g.index.contains_key(finish) && g.index[finish] == f && f < n,
                None => !g.index.contains_key(finish),
            },
            search.unsettled(finish_slot, s),
        ensures
            search.inv(g, s),
            search.followed(g, None),
            search.priced(g, s),
            nonnegative(g) ==> search.cheapest_first(g, None),
            (forall|v: int| 0 <= v < n ==> !search.open(v)) || search.finish_is_lowest(finish_slot),
            search.unsettled(finish_slot, s),
        decreases n - search.settled@.len(),
    {
        let lowest = match get_lowest(&search.cost, finish_slot) {
            Some(lowest) => lowest,
            None => {
                proof {
                    match finish_slot {
                        Some(f) => {
                            if f < n && search.cost@[f as int] is Some && lowest_at(
                                search.cost@,
                                f as int,
                            ) {
                                assert(search.open(f as int));
                                assert forall|v: int|
                                    0 <= v < search.cost@.len() && #[trigger] search.open(
                                        v,
                                    ) implies search.cost@[f as int].unwrap()
                                    <= search.cost@[v].unwrap() by {
                                    assert(search.cost@[v] is Some);
                                }
                            }
                        },
                        None => {},
                    }
                }
                break ;
            },
        };
        let lowest_cost = match search.cost[lowest] {
            Some(c) => c,
            None => {
                break ;
            },
        };
        let ghost before = search;
        proof {
            assert(before.open(lowest as int));
            lemma_settled_count(before.settled@, n as int);
            lemma_settled_count(before.settled@.insert(lowest as int), n as int);
        }
        // The node is done with: its cost is final and it is no longer open.
        search.cost[lowest] = None;
        search.done[lowest] = true;
        search.rank = Ghost(before.rank@.update(lowest as int, before.settled@.len() as int));
        search.settled = Ghost(before.settled@.insert(lowest as int));
        search.settled_cost = Ghost(before.settled_cost@.update(lowest as int, lowest_cost as int));
        proof {
            assert(!before.settled@.contains(lowest as int));
            assert forall|v: int| 0 <= v < n && #[trigger] search.done@[v] implies {
                &&& !search.open(v)
                &&& 0 <= search.rank@[v] < search.settled@.len()
                &&& (v != s ==> search.parents@[v] is Some)
                &&& registered(g, v)
            } by {
                if v != lowest {
                    assert(before.done@[v]);
                }
            }
            assert forall|v: int| 0 <= v < n && #[trigger] search.open(v) implies {
                &&& !search.done@[v]
                &&& search.parents@[v] is Some
                &&& registered(g, v)
                &&& -step_limit() * search.settled@.len() <= search.cost@[v].unwrap()
                    <= step_limit() * search.settled@.len()
            } by {
                assert(before.open(v));
            }
            assert forall|v: int| 0 <= v < n && (#[trigger] search.parents@[v]) is Some implies {
                let u = search.parents@[v].unwrap() as int;
                &&& 0 <= u < n
                &&& search.done@[u]
                &&& steps(g, u, v)
                &&& (search.done@[v] ==> search.rank@[u] < search.rank@[v])
                &&& (search.done@[v] || search.open(v))
            } by {
                assert(before.parents@[v] is Some);
                let u = before.parents@[v].unwrap() as int;
                assert(before.done@[u]);
            }
            assert forall|u: int, e: int|
                0 <= u < g.nodes.len() && search.done@[u] && 0 <= e < g.nodes[u].edges.len() implies {
                ||| u == lowest && 0 <= e
                ||| search.done@[#[trigger] target(g, u, e)]
                ||| search.open(target(g, u, e))
            } by {
                if u != lowest {
                    assert(before.done@[target(g, u, e)] || before.open(target(g, u, e)));
                }
            }
            assert forall|v: int| 0 <= v < n implies before.price(v) == search.price(v)
                || !before.done@[v] && !before.open(v) by {}
            assert forall|v: int| 0 <= v < n && (#[trigger] search.parents@[v]) is Some implies {
                let u = search.parents@[v].unwrap() as int;
                &&& 0 <= search.via@[v] < g.nodes[u].edges.len()
                &&& target(g, u, search.via@[v]) == v
                &&& search.price(v) == search.settled_cost@[u] + g.nodes[u].edges[search.via@[v]].weight
            } by {
                assert(before.parents@[v] is Some);
                let u = before.parents@[v].unwrap() as int;
                assert(before.done@[u]);
                assert(before.done@[v] || before.open(v));
            }
            assert(search.priced(g, s));
            if nonnegative(g) {
                assert forall|u: int, v: int|
                    0 <= u < n && 0 <= v < n && #[trigger] search.done@[u] && #[trigger] search.open(
                        v,
                    ) implies search.settled_cost@[u] <= search.cost@[v].unwrap() by {
                    assert(before.open(v));
                    if u != lowest {
                        assert(before.done@[u]);
                    } else {
                        assert(before.cost@[v] is Some);
                    }
                }
                assert forall|u: int, e: int|
                    0 <= u < n && search.done@[u] && 0 <= e < g.nodes[u].edges.len() implies {
                    ||| u == lowest && 0 <= e
                    ||| search.price(#[trigger] target(g, u, e)) <= search.settled_cost@[u]
                        + g.nodes[u].edges[e].weight
                } by {
                    if u != lowest {
                        let t = target(g, u, e);
                        assert(before.done@[t] || before.open(t));
                        assert(before.price(t) <= before.settled_cost@[u]
                            + g.nodes[u].edges[e].weight);
                    }
                }
                assert forall|u: int| 0 <= u < n && #[trigger] search.done@[u] implies search.settled_cost@[u]
                    <= lowest_cost by {
                    if u != lowest {
                        assert(before.done@[u]);
                        assert(before.open(lowest as int));
                    }
                }
            }
        }
        calculate_cost(graph, lowest, lowest_cost, &mut search, Ghost(s));
    }
    let chain = build_chain(graph, finish, finish_slot, &search, Ghost(s));
    proof {
        if chain@.len() > 1 {
            assert(is_route(g, chain@) && chain@[0] == start && chain@.last() == finish);
            let f = finish_slot.unwrap() as int;
            assert(search.parents@[f] is Some);
            if nonnegative(g) {
                let nodes = slots_of(g, chain@);
                let picks = Seq::new((nodes.len() - 1) as nat, |i: int| search.via@[nodes[i + 1]]);
                let w = Walk { nodes, picks };
                lemma_chain_price(search, g, s, w, picks.len() as int);
                assert(nodes.last() == f);
                assert(search.done@[f] || search.open(f));
                assert(search.open(f));
                assert(search.finish_is_lowest(finish_slot));
                assert forall|other: Walk|
                    #[trigger] other.valid(g) && other.nodes[0] == w.nodes[0] && other.nodes.last()
                        == w.nodes.last() implies w.cost(g) <= other.cost(g) by {
                    lemma_walk_bound(search, g, s, other, other.picks.len() as int);
                    let y = choose|y: int|
                        0 <= y < g.nodes.len() && #[trigger] search.open(y)
                            && search.cost@[y].unwrap() <= other.cost_upto(
                            g,
                            other.picks.len() as int,
                        );
                    assert(search.open(y));
                }
                assert(w.cheapest(g));
            }
        }
        if start != finish && reachable(g, start, finish) {
            let path = choose|path: Seq<K>| #[trigger]
                is_route(g, path) && path[0] == start && path.last() == finish;
            if forall|v: int| 0 <= v < n ==> !search.open(v) {
                let closed = search.settled@;
                assert forall|u: int, e: int|
                    closed.contains(u) && 0 <= u < g.nodes.len() && 0 <= e
                        < g.nodes[u].edges.len() implies closed.contains(
                    #[trigger] target(g, u, e),
                ) by {
                    assert(search.done@[u]);
                    assert(g.has(g.nodes[u].edges[e].node));
                    assert(g.has(target(g, u, e)));
                    assert(search.done@[target(g, u, e)] || search.open(target(g, u, e)));
                }
                lemma_routes_stay(g, closed, path, path.len() - 1);
            } else {
                let f = finish_slot.unwrap() as int;
                assert(search.open(f));
            }
        }
    }
    chain
}

} // verus!
