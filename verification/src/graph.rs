//! The adjacency-list container.

use std::collections::HashMap;
use vstd::prelude::*;
use vstd::std_specs::iter::IteratorSpec;

verus! {

broadcast use vstd::std_specs::hash::group_hash_axioms;

/// The mathematical model of a graph: each node that has outgoing edges is
/// mapped to its successors, in the order in which the edges were added.
pub type Adjacency = Map<usize, Seq<usize>>;

/// The successors recorded for `node` in `g`; empty when `node` is no key.
pub open spec fn successors(g: Adjacency, node: usize) -> Seq<usize> {
    if g.contains_key(node) {
        g[node]
    } else {
        Seq::empty()
    }
}

/// The model after the edge `source -> target` has been appended to `g`.
pub open spec fn with_edge(g: Adjacency, source: usize, target: usize) -> Adjacency {
    g.insert(source, successors(g, source).push(target))
}

/// The model of the graph that holds the given edges, added in order.
pub open spec fn graph_of_edges(edges: Seq<(usize, usize)>) -> Adjacency
    decreases edges.len(),
{
    if edges.len() == 0 {
        Map::empty()
    } else {
        with_edge(graph_of_edges(edges.drop_last()), edges.last().0, edges.last().1)
    }
}

/// True when `g` holds an edge `u -> v`.
pub open spec fn has_edge(g: Adjacency, u: usize, v: usize) -> bool {
    g.contains_key(u) && g[u].contains(v)
}

/// Every key of `g` has at least one successor, and there are finitely many keys.
pub open spec fn well_formed(g: Adjacency) -> bool {
    &&& g.dom().finite()
    &&& forall|k: usize| #[trigger] g.contains_key(k) ==> g[k].len() > 0
}

/// A directed graph with duplicate edges and self-loops permitted.
#[derive(Debug)]
pub struct Graph {
    adj_list: HashMap<usize, Vec<usize>>,
}

impl View for Graph {
    type V = Adjacency;

    closed spec fn view(&self) -> Adjacency {
        self.adj_list@.map_values(|v: Vec<usize>| v@)
    }
}

impl Graph {
    /// The validity of a graph value: every key has a successor.
    pub open spec fn wf(&self) -> bool {
        well_formed(self@)
    }

    /// An empty graph.
    pub fn new() -> (g: Graph)
        ensures
            g.wf(),
            g@ == Map::<usize, Seq<usize>>::empty(),
    {
        let g = Graph { adj_list: HashMap::new() };
        assert(g@ =~= Map::<usize, Seq<usize>>::empty());
        g
    }

    /// Appends `target` to the successors of `source`, creating the entry if
    /// it is absent. Nothing is deduplicated and `source == target` is allowed.
    pub fn add_edge(&mut self, source: usize, target: usize)
        requires
            old(self).wf(),
        ensures
            final(self).wf(),
            final(self)@ == with_edge(old(self)@, source, target),
    {
        let successors = self.adj_list.entry(source).or_insert(Vec::new());
        successors.push(target);
        assert(final(self)@ =~= with_edge(old(self)@, source, target));
    }

    /// The successors stored for `node`, in insertion order; empty when
    /// `node` has no outgoing edge.
    pub fn neighbors(&self, node: usize) -> (out: &[usize])
        ensures
            out@ == successors(self@, node),
    {
        match self.adj_list.get(&node) {
            Some(list) => list.as_slice(),
            None => &[],
        }
    }

    /// The nodes that have outgoing edges, each once, in no particular order.
    pub fn nodes(&self) -> (out: Vec<usize>)
        ensures
            out@.no_duplicates(),
            out@.to_set() == self@.dom(),
    {
        let mut out: Vec<usize> = Vec::new();
        for key in it: self.adj_list.keys()
            invariant
                out@ == it.history().unref(),
        {
            out.push(*key);
        }
        proof {
            let keys = self.adj_list.keys().remaining();
            assert(out@ =~= keys.unref());
            assert(self@.dom() =~= self.adj_list@.dom());
        }
        out
    }
}

} // verus!
