use graph_stats::graph::Graph;
use graph_stats::stats::{path_length_totals, tally_distances, PathTotals};
use std::collections::HashMap;

fn average(totals: PathTotals) -> f64 {
    if totals.path_count == 0 {
        0.0
    } else {
        totals.total_distance as f64 / totals.path_count as f64
    }
}

fn chain(edges: &[(usize, usize)]) -> Graph {
    let mut graph = Graph::new();
    for &(source, target) in edges {
        graph.add_edge(source, target);
    }
    graph
}

#[test]
fn test_add_edge() {
    let mut graph = Graph::new();
    graph.add_edge(1, 2);
    graph.add_edge(1, 3);

    assert_eq!(graph.neighbors(1), &vec![2, 3]);
}

#[test]
fn test_bfs_simple() {
    let mut graph = Graph::new();
    graph.add_edge(0, 1);
    graph.add_edge(1, 2);
    graph.add_edge(2, 3);

    let distances = graph.bfs(0);

    assert_eq!(distances.get(&0), Some(&0));
    assert_eq!(distances.get(&1), Some(&1));
    assert_eq!(distances.get(&2), Some(&2));
    assert_eq!(distances.get(&3), Some(&3));
}

#[test]
fn test_average_path_length_small_graph() {
    let mut graph = Graph::new();
    graph.add_edge(0, 1);
    graph.add_edge(1, 2);

    let totals = path_length_totals(&graph).unwrap();
    assert_eq!(totals, PathTotals { total_distance: 4, path_count: 3 });
    let avg = average(totals);

    let expected_avg = (1 + 2 + 1) as f64 / 3.0;

    assert!((avg - expected_avg).abs() == 0.0);
}

#[test]
fn new_graph_has_no_nodes() {
    let graph = Graph::new();
    assert!(graph.nodes().is_empty());
    assert!(graph.neighbors(0).is_empty());
}

#[test]
fn neighbors_of_a_sink_are_empty() {
    let graph = chain(&[(0, 1)]);
    assert_eq!(graph.neighbors(0), &[1]);
    assert!(graph.neighbors(1).is_empty());
    assert!(graph.neighbors(7).is_empty());
}

#[test]
fn add_edge_keeps_duplicates_and_self_loops() {
    let graph = chain(&[(4, 4), (4, 9), (4, 9), (4, 4)]);
    assert_eq!(graph.neighbors(4), &[4, 9, 9, 4]);
}

#[test]
fn nodes_are_the_sources_only() {
    let graph = chain(&[(5, 1), (2, 5), (5, 3), (2, 8)]);
    let mut nodes = graph.nodes();
    nodes.sort();
    assert_eq!(nodes, vec![2, 5]);
}

#[test]
fn bfs_chain_holds_exactly_the_chain() {
    let graph = chain(&[(0, 1), (1, 2), (2, 3)]);
    let distances = graph.bfs(0);
    let mut expected = HashMap::new();
    expected.insert(0, 0);
    expected.insert(1, 1);
    expected.insert(2, 2);
    expected.insert(3, 3);
    assert_eq!(distances, expected);
}

#[test]
fn bfs_start_is_at_distance_zero() {
    let graph = chain(&[(0, 1), (1, 0), (1, 2), (2, 2)]);
    for node in graph.nodes() {
        assert_eq!(graph.bfs(node).get(&node), Some(&0));
    }
}

#[test]
fn bfs_from_a_node_that_is_not_in_the_graph() {
    let graph = chain(&[(0, 1)]);
    let distances = graph.bfs(42);
    assert_eq!(distances.len(), 1);
    assert_eq!(distances.get(&42), Some(&0));
}

#[test]
fn bfs_from_a_sink_reaches_only_itself() {
    let graph = chain(&[(0, 1), (1, 2)]);
    let distances = graph.bfs(2);
    assert_eq!(distances.len(), 1);
    assert_eq!(distances.get(&2), Some(&0));
}

#[test]
fn bfs_takes_the_shorter_of_two_routes() {
    // 0 -> 1 -> 2 -> 3 -> 4 and the shortcut 0 -> 3
    let graph = chain(&[(0, 1), (1, 2), (2, 3), (3, 4), (0, 3)]);
    let distances = graph.bfs(0);
    assert_eq!(distances.get(&1), Some(&1));
    assert_eq!(distances.get(&2), Some(&2));
    assert_eq!(distances.get(&3), Some(&1));
    assert_eq!(distances.get(&4), Some(&2));
}

#[test]
fn bfs_ends_on_a_cycle() {
    let graph = chain(&[(0, 1), (1, 2), (2, 0)]);
    let distances = graph.bfs(1);
    assert_eq!(distances.len(), 3);
    assert_eq!(distances.get(&1), Some(&0));
    assert_eq!(distances.get(&2), Some(&1));
    assert_eq!(distances.get(&0), Some(&2));
}

#[test]
fn bfs_follows_edges_forward_only() {
    let graph = chain(&[(0, 1), (2, 1)]);
    let distances = graph.bfs(1);
    assert_eq!(distances.len(), 1);
    assert!(!distances.contains_key(&0));
    assert!(!distances.contains_key(&2));
}

#[test]
fn bfs_distances_differ_by_at_most_one_along_an_edge() {
    let edges = [(0, 1), (0, 2), (1, 3), (2, 3), (3, 4), (4, 0), (2, 5), (5, 5), (6, 0)];
    let graph = chain(&edges);
    for start in 0..7 {
        let distances = graph.bfs(start);
        for &(u, v) in &edges {
            if let Some(&du) = distances.get(&u) {
                let dv = *distances.get(&v).unwrap();
                assert!(dv <= du + 1);
            }
        }
        for (&node, &hops) in &distances {
            if node != start {
                assert!(hops > 0);
                assert!(edges
                    .iter()
                    .any(|&(u, v)| v == node && distances.get(&u) == Some(&(hops - 1))));
            }
        }
    }
}

#[test]
fn unreachable_nodes_are_left_out() {
    // two components: 0 -> 1 -> 2 and 10 -> 11
    let graph = chain(&[(0, 1), (1, 2), (10, 11)]);
    let from_zero = graph.bfs(0);
    assert_eq!(from_zero.len(), 3);
    assert!(!from_zero.contains_key(&10));
    assert!(!from_zero.contains_key(&11));
    let from_ten = graph.bfs(10);
    assert_eq!(from_ten.len(), 2);
    assert!(!from_ten.contains_key(&0));

    // pairs: (0,1)=1 (0,2)=2 (1,2)=1 (10,11)=1
    let totals = path_length_totals(&graph).unwrap();
    assert_eq!(totals, PathTotals { total_distance: 5, path_count: 4 });
    assert_eq!(average(totals), 1.25);
}

#[test]
fn totals_of_an_empty_graph_are_zero() {
    let graph = Graph::new();
    let totals = path_length_totals(&graph).unwrap();
    assert_eq!(totals, PathTotals { total_distance: 0, path_count: 0 });
    assert_eq!(average(totals), 0.0);
}

#[test]
fn totals_of_self_loops_alone_are_zero() {
    let graph = chain(&[(3, 3), (8, 8)]);
    let totals = path_length_totals(&graph).unwrap();
    assert_eq!(totals, PathTotals { total_distance: 0, path_count: 0 });
    assert_eq!(average(totals), 0.0);
}

#[test]
fn totals_of_a_cycle() {
    // every node reaches the two others, at distances 1 and 2
    let graph = chain(&[(0, 1), (1, 2), (2, 0)]);
    let totals = path_length_totals(&graph).unwrap();
    assert_eq!(totals, PathTotals { total_distance: 9, path_count: 6 });
    assert_eq!(average(totals), 1.5);
}

#[test]
fn totals_leave_out_sinks_as_sources() {
    // 0 -> 1, 0 -> 2: only node 0 is a source
    let graph = chain(&[(0, 1), (0, 2)]);
    let totals = path_length_totals(&graph).unwrap();
    assert_eq!(totals, PathTotals { total_distance: 2, path_count: 2 });
}

#[test]
fn totals_are_the_same_when_asked_twice() {
    let graph = chain(&[(0, 1), (1, 2), (2, 0), (2, 3), (7, 0)]);
    let first = path_length_totals(&graph);
    let second = path_length_totals(&graph);
    assert_eq!(first, second);
    assert_eq!(average(first.unwrap()).to_bits(), average(second.unwrap()).to_bits());
}

#[test]
fn tally_counts_only_distances_above_zero() {
    let mut distances = HashMap::new();
    distances.insert(1, 0);
    distances.insert(2, 3);
    distances.insert(3, 3);
    distances.insert(4, 1);
    let tally = tally_distances(&distances);
    assert_eq!(tally, PathTotals { total_distance: 7, path_count: 3 });
}

#[test]
fn tally_of_an_empty_map_is_zero() {
    let distances: HashMap<usize, usize> = HashMap::new();
    assert_eq!(tally_distances(&distances), PathTotals { total_distance: 0, path_count: 0 });
}

#[test]
fn tally_does_not_wrap_at_the_width_of_usize() {
    let mut distances = HashMap::new();
    distances.insert(1, usize::MAX);
    distances.insert(2, usize::MAX);
    let tally = tally_distances(&distances);
    assert_eq!(tally.total_distance, 2 * (usize::MAX as u128));
    assert_eq!(tally.path_count, 2);
}
