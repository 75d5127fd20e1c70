//! Hop counts along directed edges, and the breadth-first search that
//! computes them.

use crate::graph::{has_edge, successors, Adjacency, Graph};
use std::collections::{HashMap, VecDeque};
use vstd::prelude::*;

verus! {

broadcast use vstd::std_specs::hash::group_hash_axioms;

/// There is a walk of exactly `hops` edges from `source` to `target`.
pub open spec fn reaches_in(g: Adjacency, source: usize, target: usize, hops: nat) -> bool
    decreases hops,
{
    if hops == 0 {
        source == target
    } else {
        exists|via: usize|
            reaches_in(g, source, via, (hops - 1) as nat) && #[trigger] has_edge(g, via, target)
    }
}

/// There is a walk of some length from `source` to `target`.
pub open spec fn reachable(g: Adjacency, source: usize, target: usize) -> bool {
    exists|hops: nat| reaches_in(g, source, target, hops)
}

/// `hops` is the length of a shortest walk from `source` to `target`.
pub open spec fn is_distance(g: Adjacency, source: usize, target: usize, hops: nat) -> bool {
    &&& reaches_in(g, source, target, hops)
    &&& forall|other: nat| reaches_in(g, source, target, other) ==> hops <= other
}

/// The length of a shortest walk from `source` to `target`; meaningful when
/// `target` is reachable.
pub open spec fn distance(g: Adjacency, source: usize, target: usize) -> nat {
    choose|hops: nat| is_distance(g, source, target, hops)
}

/// `m` holds exactly the nodes reachable from `source`, each with its distance.
pub open spec fn is_distance_map(g: Adjacency, source: usize, m: Map<usize, usize>) -> bool {
    &&& m.dom().finite()
    &&& forall|t: usize| #[trigger] m.contains_key(t) <==> reachable(g, source, t)
    &&& forall|t: usize| #[trigger] m.contains_key(t) ==> is_distance(g, source, t, m[t] as nat)
}

/// Every edge out of `u` leads to a node that `m` already holds, at most one
/// hop further than `u`.
spec fn settled(g: Adjacency, m: Map<usize, usize>, u: usize) -> bool {
    forall|v: usize| #[trigger] has_edge(g, u, v) ==> m.contains_key(v) && m[v] <= m[u] + 1
}

/// What holds of the distances found so far, whatever the queue.
spec fn found_inv(g: Adjacency, source: usize, m: Map<usize, usize>) -> bool {
    &&& m.dom().finite()
    &&& m.contains_key(source)
    &&& m[source] == 0
    &&& forall|t: usize| #[trigger] m.contains_key(t) ==> reaches_in(g, source, t, m[t] as nat)
    &&& forall|t: usize| #[trigger] m.contains_key(t) ==> m[t] < m.len()
}

/// The queue holds found nodes in order of distance.
spec fn queue_inv(m: Map<usize, usize>, q: Seq<usize>) -> bool {
    &&& forall|i: int| 0 <= i < q.len() ==> m.contains_key(#[trigger] q[i])
    &&& forall|i: int, j: int| 0 <= i <= j < q.len() ==> m[#[trigger] q[i]] <= m[#[trigger] q[j]]
}

/// Once every found node is settled, a walk of `hops` edges to `target`
/// shows that `target` was found, no further than `hops` away.
proof fn lemma_settled_is_lower_bound(
    g: Adjacency,
    source: usize,
    m: Map<usize, usize>,
    target: usize,
    hops: nat,
)
    requires
        m.contains_key(source),
        m[source] == 0,
        forall|u: usize| #[trigger] m.contains_key(u) ==> settled(g, m, u),
        reaches_in(g, source, target, hops),
    ensures
        m.contains_key(target),
        m[target] <= hops,
    decreases hops,
{
    if hops > 0 {
        let via = choose|via: usize|
            reaches_in(g, source, via, (hops - 1) as nat) && #[trigger] has_edge(g, via, target);
        lemma_settled_is_lower_bound(g, source, m, via, (hops - 1) as nat);
        assert(settled(g, m, via));
    }
}

/// Among the lengths of walks from `source` to `target` there is a least one.
proof fn lemma_least_walk(g: Adjacency, source: usize, target: usize, hops: nat)
    requires
        reaches_in(g, source, target, hops),
    ensures
        exists|least: nat| least <= hops && is_distance(g, source, target, least),
    decreases hops,
{
    if exists|shorter: nat| shorter < hops && reaches_in(g, source, target, shorter) {
        let shorter = choose|shorter: nat|
            shorter < hops && reaches_in(g, source, target, shorter);
        lemma_least_walk(g, source, target, shorter);
    } else {
        assert(is_distance(g, source, target, hops));
    }
}

/// Every reachable node has a distance, and `distance` names it.
pub proof fn lemma_distance_exists(g: Adjacency, source: usize, target: usize)
    requires
        reachable(g, source, target),
    ensures
        is_distance(g, source, target, distance(g, source, target)),
{
    let hops = choose|hops: nat| reaches_in(g, source, target, hops);
    lemma_least_walk(g, source, target, hops);
}

/// Every node is at distance zero from itself.
pub proof fn lemma_distance_to_self(g: Adjacency, node: usize)
    ensures
        reachable(g, node, node),
        is_distance(g, node, node, 0),
        distance(g, node, node) == 0,
{
    assert(reaches_in(g, node, node, 0));
    lemma_distance_exists(g, node, node);
}

/// A distance map holds, for each of its nodes, the distance from the source.
pub proof fn lemma_distance_map_values(
    g: Adjacency,
    source: usize,
    m: Map<usize, usize>,
    target: usize,
)
    requires
        is_distance_map(g, source, m),
        m.contains_key(target),
    ensures
        m[target] == distance(g, source, target),
{
    lemma_distance_exists(g, source, target);
}

/// A graph and a source have one distance map only.
pub proof fn lemma_distance_map_unique(
    g: Adjacency,
    source: usize,
    first: Map<usize, usize>,
    second: Map<usize, usize>,
)
    requires
        is_distance_map(g, source, first),
        is_distance_map(g, source, second),
    ensures
        first == second,
{
    assert forall|t: usize| first.contains_key(t) implies #[trigger] first[t] == second[t] by {
        assert(second.contains_key(t));
        lemma_distance_map_values(g, source, first, t);
        lemma_distance_map_values(g, source, second, t);
    }
    assert forall|t: usize| first.contains_key(t) <==> second.contains_key(t) by {
    }
    assert(first =~= second);
}

/// The source of a distance map is in it, at distance zero, and is the only
/// node at distance zero.
pub proof fn lemma_distance_map_source(
    g: Adjacency,
    source: usize,
    m: Map<usize, usize>,
    target: usize,
)
    requires
        is_distance_map(g, source, m),
    ensures
        m.contains_key(source),
        m[source] == 0,
        m.contains_key(target) && m[target] == 0 ==> target == source,
{
    lemma_distance_to_self(g, source);
    assert(m.contains_key(source));
}

/// Shortest-path optimality along an edge: where a distance map holds `u`
/// and the graph has an edge from `u` to `v`, the map holds `v` as well, no
/// more than one hop further than `u`.
pub proof fn lemma_edge_relaxation(
    g: Adjacency,
    source: usize,
    m: Map<usize, usize>,
    u: usize,
    v: usize,
)
    requires
        is_distance_map(g, source, m),
        m.contains_key(u),
        has_edge(g, u, v),
    ensures
        m.contains_key(v),
        m[v] <= m[u] + 1,
{
    assert(reaches_in(g, source, v, (m[u] + 1) as nat));
    assert(m.contains_key(v));
}

/// Every node of a distance map other than the source is entered by an edge
/// from a node of the map that is exactly one hop nearer.
pub proof fn lemma_shortest_predecessor(
    g: Adjacency,
    source: usize,
    m: Map<usize, usize>,
    v: usize,
)
    requires
        is_distance_map(g, source, m),
        m.contains_key(v),
        v != source,
    ensures
        exists|u: usize| #[trigger] has_edge(g, u, v) && m.contains_key(u) && m[v] == m[u] + 1,
{
    let hops = m[v] as nat;
    assert(reaches_in(g, source, v, hops));
    let u = choose|u: usize|
        reaches_in(g, source, u, (hops - 1) as nat) && #[trigger] has_edge(g, u, v);
    assert(m.contains_key(u));
    lemma_edge_relaxation(g, source, m, u, v);
}

impl Graph {
    /// Breadth-first search from `start`: the map from every node reachable
    /// from `start` to the least number of edges that lead to it.
    pub fn bfs(&self, start: usize) -> (distances: HashMap<usize, usize>)
        ensures
            is_distance_map(self@, start, distances@),
            distances@.contains_key(start),
            distances@[start] == 0,
            forall|u: usize, v: usize|
                distances@.contains_key(u) && #[trigger] has_edge(self@, u, v)
                    ==> distances@.contains_key(v) && distances@[v] <= distances@[u] + 1,
    {
        let ghost g = self@;
        let mut distances: HashMap<usize, usize> = HashMap::new();
        let mut queue: VecDeque<usize> = VecDeque::new();
        distances.insert(start, 0);
        queue.push_back(start);
        assert(distances@.len() == 1) by {
            assert(distances@.dom() =~= set![start]);
        }
        assert(reaches_in(g, start, start, 0));
        assert(queue@.contains(start)) by {
            assert(queue@[0] == start);
        }
        while queue.len() > 0
            invariant
                g == self@,
                found_inv(g, start, distances@),
                queue_inv(distances@, queue@),
                distances@.len() == distances.len(),
                queue@.len() > 0 ==> forall|t: usize| #[trigger]
                    distances@.contains_key(t) ==> distances@[t] <= distances@[queue@[0]] + 1,
                forall|u: usize| #[trigger]
                    distances@.contains_key(u) ==> queue@.contains(u) || settled(
                        g,
                        distances@,
                        u,
                    ),
            decreases 2 * (usize::MAX - distances@.len()) + queue@.len(),
        {
            let ghost before = distances@;
            let ghost queue_before = queue@;
            let node = queue.pop_front().unwrap();
            let hops = *distances.get(&node).unwrap();
            let neighbors = self.neighbors(node);
            let mut i: usize = 0;
            assert forall|u: usize| #[trigger] distances@.contains_key(u) implies u == node
                || queue@.contains(u) || settled(g, distances@, u) by {
                if queue_before.contains(u) && u != node {
                    let k = choose|k: int| 0 <= k < queue_before.len() && queue_before[k] == u;
                    assert(queue@[k - 1] == u);
                }
            }
            assert forall|k: int| 0 <= k < queue@.len() implies hops
                <= distances@[#[trigger] queue@[k]] by {
                assert(queue@[k] == queue_before[k + 1]);
            }
            assert(queue_inv(distances@, queue@)) by {
                assert forall|a: int, b: int|
                    0 <= a <= b < queue@.len() implies distances@[#[trigger] queue@[a]]
                    <= distances@[#[trigger] queue@[b]] by {
                    assert(queue@[a] == queue_before[a + 1]);
                    assert(queue@[b] == queue_before[b + 1]);
                }
                assert forall|a: int| 0 <= a < queue@.len() implies distances@.contains_key(
                    #[trigger] queue@[a],
                ) by {
                    assert(queue@[a] == queue_before[a + 1]);
                }
            }
            while i < neighbors.len()
                invariant
                    g == self@,
                    neighbors@ == successors(g, node),
                    0 <= i <= neighbors.len(),
                    found_inv(g, start, distances@),
                    queue_inv(distances@, queue@),
                    distances@.len() == distances.len(),
                    distances@.contains_key(node),
                    distances@[node] == hops,
                    forall|k: int|
                        0 <= k < queue@.len() ==> hops <= distances@[#[trigger] queue@[k]],
                    forall|t: usize| #[trigger]
                        distances@.contains_key(t) ==> distances@[t] <= hops + 1,
                    forall|u: usize| #[trigger]
                        distances@.contains_key(u) ==> u == node || queue@.contains(u) || settled(
                            g,
                            distances@,
                            u,
                        ),
                    forall|k: int|
                        0 <= k < i ==> distances@.contains_key(#[trigger] neighbors@[k]),
                    distances@.len() - queue@.len() == before.len() - queue_before.len() + 1,
                    distances@.len() >= before.len(),
                decreases neighbors.len() - i,
            {
                let neighbor = neighbors[i];
                if !distances.contains_key(&neighbor) {
                    let ghost prev = distances@;
                    let ghost prev_queue = queue@;
                    assert(has_edge(g, node, neighbor)) by {
                        assert(neighbors@[i as int] == neighbor);
                    }
                    distances.insert(neighbor, hops + 1);
                    queue.push_back(neighbor);
                    proof {
                        assert(distances@.dom() =~= prev.dom().insert(neighbor));
                        assert(reaches_in(g, start, neighbor, (hops + 1) as nat));
                        assert forall|u: usize| #[trigger]
                            distances@.contains_key(u) implies u == node || queue@.contains(u)
                            || settled(g, distances@, u) by {
                            if u == neighbor {
                                assert(queue@[queue@.len() - 1] == neighbor);
                            } else if prev_queue.contains(u) {
                                let k = choose|k: int|
                                    0 <= k < prev_queue.len() && prev_queue[k] == u;
                                assert(queue@[k] == u);
                            } else if u != node {
                                assert(settled(g, prev, u));
                            }
                        }
                    }
                }
                i = i + 1;
            }
            proof {
                assert(settled(g, distances@, node)) by {
                    assert forall|v: usize| #[trigger]
                        has_edge(g, node, v) implies distances@.contains_key(v) && distances@[v]
                        <= distances@[node] + 1 by {
                        let k = choose|k: int| 0 <= k < neighbors@.len() && neighbors@[k] == v;
                        assert(distances@.contains_key(neighbors@[k]));
                    }
                }
            }
        }
        proof {
            let m = distances@;
            assert forall|u: usize| #[trigger] m.contains_key(u) implies settled(g, m, u) by {
                assert(!queue@.contains(u));
            }
            assert forall|u: usize, v: usize|
                m.contains_key(u) && #[trigger] has_edge(g, u, v) implies m.contains_key(v)
                && m[v] <= m[u] + 1 by {
                assert(settled(g, m, u));
            }
            assert forall|t: usize| reachable(g, start, t) implies #[trigger] m.contains_key(t) by {
                let hops = choose|hops: nat| reaches_in(g, start, t, hops);
                lemma_settled_is_lower_bound(g, start, m, t, hops);
            }
            assert forall|t: usize| #[trigger] m.contains_key(t) implies is_distance(
                g,
                start,
                t,
                m[t] as nat,
            ) by {
                assert forall|other: nat| reaches_in(g, start, t, other) implies m[t] as nat
                    <= other by {
                    lemma_settled_is_lower_bound(g, start, m, t, other);
                }
            }
        }
        distances
    }
}

} // verus!
