//! Totals of shortest-path lengths over the ordered pairs of a graph.

use crate::graph::{Adjacency, Graph};
use crate::paths::{
    distance, is_distance_map, lemma_distance_map_source, lemma_distance_map_values, reachable,
};
use crate::sums::{
    lemma_sum_over_agree, lemma_sum_over_empty, lemma_sum_over_insert, lemma_sum_over_subset,
    sum_over,
};
use std::collections::HashMap;
use vstd::prelude::*;
use vstd::std_specs::iter::IteratorSpec;

verus! {

broadcast use vstd::std_specs::hash::group_hash_axioms;

/// The sum of the path lengths that were measured, and how many there were.
#[derive(Debug, Clone, Copy, PartialEq, Eq, Structural)]
pub struct PathTotals {
    pub total_distance: u128,
    pub path_count: u128,
}

/// The keys of `m` whose value is above zero.
pub open spec fn positive_keys(m: Map<usize, usize>) -> Set<usize> {
    Set::new(|t: usize| m.contains_key(t) && m[t] > 0)
}

/// The value that `m` holds for a key, as a weight.
pub open spec fn value_of(m: Map<usize, usize>) -> spec_fn(usize) -> nat {
    |t: usize| m[t] as nat
}

/// The sum of the values of `m` that are above zero.
pub open spec fn map_total(m: Map<usize, usize>) -> nat {
    sum_over(positive_keys(m), value_of(m))
}

/// How many values of `m` are above zero.
pub open spec fn map_count(m: Map<usize, usize>) -> nat {
    positive_keys(m).len()
}

/// The nodes other than `source` that can be reached from it.
pub open spec fn targets(g: Adjacency, source: usize) -> Set<usize> {
    Set::new(|t: usize| t != source && reachable(g, source, t))
}

/// The distance from `source`, as a weight.
pub open spec fn distance_from(g: Adjacency, source: usize) -> spec_fn(usize) -> nat {
    |t: usize| distance(g, source, t)
}

/// The sum of the distances from `source` to each of its targets.
pub open spec fn source_total(g: Adjacency, source: usize) -> nat {
    sum_over(targets(g, source), distance_from(g, source))
}

/// The total of each source, as a weight.
pub open spec fn source_totals(g: Adjacency) -> spec_fn(usize) -> nat {
    |s: usize| source_total(g, s)
}

/// The number of targets of each source, as a weight.
pub open spec fn target_counts(g: Adjacency) -> spec_fn(usize) -> nat {
    |s: usize| targets(g, s).len()
}

/// The sum of the distances over all ordered pairs `(s, t)` where `s` has an
/// outgoing edge, `t != s`, and `t` can be reached from `s`.
pub open spec fn pair_total(g: Adjacency) -> nat {
    sum_over(g.dom(), source_totals(g))
}

/// The number of those pairs.
pub open spec fn pair_count(g: Adjacency) -> nat {
    sum_over(g.dom(), target_counts(g))
}

/// `r` is the totals of `g`, or `None` where the sum of the distances is
/// beyond `u128`.
pub open spec fn is_path_totals(g: Adjacency, r: Option<PathTotals>) -> bool {
    match r {
        Some(t) => t.total_distance == pair_total(g) && t.path_count == pair_count(g),
        None => pair_total(g) > u128::MAX,
    }
}

/// The positive entries of a distance map are the targets of its source,
/// with their distances.
pub proof fn lemma_distance_map_totals(g: Adjacency, source: usize, m: Map<usize, usize>)
    requires
        is_distance_map(g, source, m),
    ensures
        positive_keys(m) == targets(g, source),
        map_total(m) == source_total(g, source),
        map_count(m) == targets(g, source).len(),
        targets(g, source).finite(),
        map_count(m) <= m.len(),
{
    assert forall|t: usize| positive_keys(m).contains(t) <==> targets(g, source).contains(t) by {
        lemma_distance_map_source(g, source, m, t);
    }
    assert(positive_keys(m) =~= targets(g, source));
    assert(positive_keys(m).subset_of(m.dom()));
    vstd::set_lib::lemma_len_subset(positive_keys(m), m.dom());
    assert forall|t: usize| positive_keys(m).contains(t) implies value_of(m)(t) == distance_from(
        g,
        source,
    )(t) by {
        lemma_distance_map_values(g, source, m, t);
    }
    lemma_sum_over_agree(positive_keys(m), value_of(m), distance_from(g, source));
}

/// The totals of a graph without edges are zero.
pub proof fn lemma_totals_of_edgeless(g: Adjacency)
    requires
        g.dom() == Set::<usize>::empty(),
    ensures
        pair_total(g) == 0,
        pair_count(g) == 0,
        is_path_totals(g, Some(PathTotals { total_distance: 0, path_count: 0 })),
{
    lemma_sum_over_empty(source_totals(g));
    lemma_sum_over_empty(target_counts(g));
}

/// The totals depend on the graph alone: two results for one graph are equal.
pub proof fn lemma_totals_repeatable(
    g: Adjacency,
    first: Option<PathTotals>,
    second: Option<PathTotals>,
)
    requires
        is_path_totals(g, first),
        is_path_totals(g, second),
    ensures
        first == second,
{
}

/// Sums the values of `distances` that are above zero, and counts them.
pub fn tally_distances(distances: &HashMap<usize, usize>) -> (t: PathTotals)
    ensures
        t.total_distance == map_total(distances@),
        t.path_count == map_count(distances@),
        t.path_count <= distances@.len(),
        t.path_count <= usize::MAX,
{
    let ghost m = distances@;
    let mut total: u128 = 0;
    let mut count: u128 = 0;
    let ghost mut seen: Set<usize> = Set::empty();
    let ghost mut hit: Set<usize> = Set::empty();
    proof {
        lemma_sum_over_empty(value_of(m));
        assert(m.len() == distances.len());
    }
    for entry in it: distances.iter()
        invariant
            m == distances@,
            it.seq() == distances.iter().remaining(),
            it.seq().no_duplicates(),
            it.seq().len() == distances@.len(),
            distances@.len() <= usize::MAX,
            seen.finite(),
            hit.finite(),
            seen.len() == it.index(),
            forall|k: usize|
                seen.contains(k) <==> exists|j: int|
                    0 <= j < it.index() && *(#[trigger] it.seq()[j]).0 == k,
            forall|k: usize| hit.contains(k) <==> seen.contains(k) && m[k] > 0,
            total == sum_over(hit, value_of(m)),
            count == hit.len(),
            count <= it.index(),
            total <= it.index() * usize::MAX,
    {
        let hops = *entry.1;
        proof {
            let idx = it.index();
            let key = *entry.0;
            assert(entry == it.seq()[idx]);
            assert(m.contains_key(key) && m[key] == hops);
            assert(!seen.contains(key)) by {
                if seen.contains(key) {
                    let j = choose|j: int| 0 <= j < idx && *(#[trigger] it.seq()[j]).0 == key;
                    assert(m[*it.seq()[j].0] == *it.seq()[j].1);
                    assert(it.seq()[j] == it.seq()[idx]);
                }
            }
            seen = seen.insert(key);
            assert forall|k: usize| seen.contains(k) implies exists|j: int|
                0 <= j < idx + 1 && *(#[trigger] it.seq()[j]).0 == k by {
                if k == key {
                    assert(*it.seq()[idx].0 == k);
                } else {
                    let j = choose|j: int| 0 <= j < idx && *(#[trigger] it.seq()[j]).0 == k;
                    assert(*it.seq()[j].0 == k);
                }
            }
            if hops > 0 {
                lemma_sum_over_insert(hit, value_of(m), key);
                hit = hit.insert(key);
            }
            assert((idx + 1) * usize::MAX == idx * usize::MAX + usize::MAX) by (nonlinear_arith);
            assert(idx * usize::MAX + usize::MAX <= u128::MAX) by (nonlinear_arith)
                requires
                    0 <= idx < usize::MAX,
                    usize::MAX <= 0xffff_ffff_ffff_ffff,
            ;
        }
        if hops > 0 {
            total = total + hops as u128;
            count = count + 1;
        }
    }
    proof {
        let pairs = distances.iter().remaining();
        assert(seen.subset_of(m.dom())) by {
            assert forall|k: usize| seen.contains(k) implies m.dom().contains(k) by {
                let j = choose|j: int| 0 <= j < pairs.len() && *(#[trigger] pairs[j]).0 == k;
                assert(m.contains_key(*pairs[j].0));
            }
        }
        vstd::set_lib::lemma_subset_equality(seen, m.dom());
        assert(hit =~= positive_keys(m));
        vstd::set_lib::lemma_len_subset(hit, m.dom());
        assert(m.len() == distances.len());
    }
    PathTotals { total_distance: total, path_count: count }
}

/// Runs a breadth-first search from every node that has an outgoing edge and
/// adds up the distances above zero that the searches find, with their
/// number. Returns `None` only where the sum does not fit in `u128`.
pub fn path_length_totals(graph: &Graph) -> (r: Option<PathTotals>)
    ensures
        is_path_totals(graph@, r),
        graph@.dom().is_empty() ==> r == Some(PathTotals { total_distance: 0, path_count: 0 }),
{
    let ghost g = graph@;
    let nodes = graph.nodes();
    let mut total: u128 = 0;
    let mut count: u128 = 0;
    let mut i: usize = 0;
    let ghost mut done: Set<usize> = Set::empty();
    proof {
        lemma_sum_over_empty(source_totals(g));
        lemma_sum_over_empty(target_counts(g));
        vstd::seq_lib::seq_to_set_is_finite(nodes@);
    }
    while i < nodes.len()
        invariant
            g == graph@,
            g.dom().finite(),
            nodes@.no_duplicates(),
            nodes@.to_set() == g.dom(),
            0 <= i <= nodes.len(),
            done.finite(),
            forall|k: usize|
                done.contains(k) <==> exists|j: int| 0 <= j < i && #[trigger] nodes@[j] == k,
            total == sum_over(done, source_totals(g)),
            count == sum_over(done, target_counts(g)),
            count <= i * usize::MAX,
        decreases nodes.len() - i,
    {
        let node = nodes[i];
        let distances = graph.bfs(node);
        let tally = tally_distances(&distances);
        proof {
            lemma_distance_map_totals(g, node, distances@);
            assert(!done.contains(node));
            lemma_sum_over_insert(done, source_totals(g), node);
            lemma_sum_over_insert(done, target_counts(g), node);
            assert(done.insert(node).subset_of(g.dom())) by {
                assert forall|k: usize| done.insert(node).contains(k) implies g.dom().contains(
                    k,
                ) by {
                    if k == node {
                        assert(nodes@[i as int] == k);
                    } else {
                        let j = choose|j: int| 0 <= j < i && #[trigger] nodes@[j] == k;
                        assert(nodes@.to_set().contains(nodes@[j]));
                    }
                    assert(nodes@.to_set().contains(k));
                }
            }
            assert(g.dom().contains(node)) by {
                assert(done.insert(node).contains(node));
            }
            lemma_sum_over_subset(done.insert(node), g.dom(), source_totals(g));
            assert((i + 1) * usize::MAX == i * usize::MAX + usize::MAX) by (nonlinear_arith);
            assert(i * usize::MAX + usize::MAX <= u128::MAX) by (nonlinear_arith)
                requires
                    0 <= i < usize::MAX,
                    usize::MAX <= 0xffff_ffff_ffff_ffff,
            ;
        }
        match total.checked_add(tally.total_distance) {
            Some(sum) => {
                total = sum;
            },
            None => {
                return None;
            },
        }
        count = count + tally.path_count;
        proof {
            done = done.insert(node);
            assert forall|k: usize| done.contains(k) implies exists|j: int|
                0 <= j < i + 1 && #[trigger] nodes@[j] == k by {
                if k == node {
                    assert(nodes@[i as int] == k);
                } else {
                    let j = choose|j: int| 0 <= j < i && #[trigger] nodes@[j] == k;
                    assert(nodes@[j] == k);
                }
            }
        }
        i = i + 1;
    }
    proof {
        assert(done =~= g.dom()) by {
            assert forall|k: usize| g.dom().contains(k) implies done.contains(k) by {
                assert(nodes@.to_set().contains(k));
                let j = choose|j: int| 0 <= j < nodes@.len() && nodes@[j] == k;
                assert(nodes@[j] == k);
            }
            assert forall|k: usize| done.contains(k) implies g.dom().contains(k) by {
                let j = choose|j: int| 0 <= j < i && #[trigger] nodes@[j] == k;
                assert(nodes@.to_set().contains(nodes@[j]));
            }
        }
        if g.dom().is_empty() {
            assert(g.dom() =~= Set::<usize>::empty());
            lemma_totals_of_edgeless(g);
        }
    }
    Some(PathTotals { total_distance: total, path_count: count })
}

} // verus!
