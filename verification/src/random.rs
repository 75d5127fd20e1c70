//! Random graphs: edges drawn uniformly between a given number of nodes.

use crate::graph::{with_edge, Adjacency, Graph};
use rand::rngs::ThreadRng;
use rand::seq::SliceRandom;
use vstd::prelude::*;

verus! {

/// `rand::rngs::ThreadRng`, the thread-local generator of the `rand` crate.
/// The type is opaque: nothing inside it is visible to the proofs.
#[verifier::external_type_specification]
#[verifier::external_body]
pub struct ExThreadRng(ThreadRng);

/// `rand::thread_rng` hands out the calling thread's generator, which the
/// system seeds on first use. Nothing is claimed of the value.
pub assume_specification[ rand::thread_rng ]() -> (rng: ThreadRng)
;

/// `rand::seq::SliceRandom::choose` on a slice of nodes. Believed without
/// proof: it gives `None` for an empty slice and otherwise one of the
/// elements of the slice. Which element is left open, so two calls on the
/// same slice may differ.
#[verifier::external_body]
fn choose_node(nodes: &Vec<usize>, rng: &mut ThreadRng) -> (picked: Option<usize>)
    ensures
        nodes@.len() == 0 ==> picked is None,
        nodes@.len() > 0 ==> picked is Some && nodes@.contains(picked->0),
{
    nodes.choose(rng).copied()
}

/// The graph that a sequence of drawn pairs gives: each pair becomes an
/// edge, in order, except the pairs whose two ends are equal.
pub open spec fn graph_of_draws(draws: Seq<(usize, usize)>) -> Adjacency
    decreases draws.len(),
{
    if draws.len() == 0 {
        Map::empty()
    } else {
        let earlier = graph_of_draws(draws.drop_last());
        let (source, target) = draws.last();
        if source != target {
            with_edge(earlier, source, target)
        } else {
            earlier
        }
    }
}

/// Every end of every pair is below `num_nodes`.
pub open spec fn draws_within(draws: Seq<(usize, usize)>, num_nodes: usize) -> bool {
    forall|i: int|
        0 <= i < draws.len() ==> (#[trigger] draws[i]).0 < num_nodes && draws[i].1 < num_nodes
}

impl Graph {
    /// Takes one drawn pair: adds the edge `source -> target`, unless the two
    /// are equal, in which case the graph stays as it is.
    pub fn add_drawn_pair(&mut self, source: usize, target: usize)
        requires
            old(self).wf(),
        ensures
            final(self).wf(),
            source != target ==> final(self)@ == with_edge(old(self)@, source, target),
            source == target ==> final(self)@ == old(self)@,
    {
        if source != target {
            self.add_edge(source, target);
        }
    }
}

/// A graph made of `num_edges` draws of a pair of nodes below `num_nodes`,
/// where a pair of two equal nodes adds no edge. So the graph may hold fewer
/// than `num_edges` edges.
pub fn generate_random_graph(num_nodes: usize, num_edges: usize) -> (graph: Graph)
    requires
        num_nodes > 0 || num_edges == 0,
    ensures
        graph.wf(),
        exists|draws: Seq<(usize, usize)>|
            draws.len() == num_edges && draws_within(draws, num_nodes) && graph@
                == #[trigger] graph_of_draws(draws),
{
    let mut graph = Graph::new();
    let mut rng = rand::thread_rng();
    let mut nodes: Vec<usize> = Vec::new();
    let mut node: usize = 0;
    while node < num_nodes
        invariant
            node <= num_nodes,
            nodes@.len() == node,
            forall|k: int| 0 <= k < node ==> nodes@[k] == k,
        decreases num_nodes - node,
    {
        nodes.push(node);
        node = node + 1;
    }
    let ghost mut draws: Seq<(usize, usize)> = Seq::empty();
    let mut drawn: usize = 0;
    while drawn < num_edges
        invariant
            drawn <= num_edges,
            num_nodes > 0 || num_edges == 0,
            nodes@.len() == num_nodes,
            forall|k: int| 0 <= k < num_nodes ==> nodes@[k] == k,
            graph.wf(),
            draws.len() == drawn,
            draws_within(draws, num_nodes),
            graph@ == graph_of_draws(draws),
        decreases num_edges - drawn,
    {
        let source = choose_node(&nodes, &mut rng).unwrap();
        let target = choose_node(&nodes, &mut rng).unwrap();
        graph.add_drawn_pair(source, target);
        proof {
            let longer = draws.push((source, target));
            assert(longer.drop_last() =~= draws);
            assert(longer.last() == (source, target));
            draws = longer;
        }
        drawn = drawn + 1;
    }
    graph
}

} // verus!
