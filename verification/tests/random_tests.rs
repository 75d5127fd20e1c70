use graph_stats::graph::Graph;
use graph_stats::random::generate_random_graph;

#[test]
fn random_graph_stays_within_the_nodes() {
    let graph = generate_random_graph(5, 200);
    let mut edges = 0;
    for node in graph.nodes() {
        assert!(node < 5);
        let neighbors = graph.neighbors(node);
        assert!(!neighbors.is_empty());
        for &neighbor in neighbors {
            assert!(neighbor < 5);
            assert_ne!(neighbor, node);
            edges += 1;
        }
    }
    assert!(edges <= 200);
    // 200 draws that all hit a self-loop among 5 nodes do not happen
    assert!(edges > 0);
}

#[test]
fn random_graph_draws_more_than_one_node() {
    let graph = generate_random_graph(3, 300);
    let mut seen = [false; 3];
    for node in graph.nodes() {
        seen[node] = true;
        for &neighbor in graph.neighbors(node) {
            seen[neighbor] = true;
        }
    }
    assert_eq!(seen, [true, true, true]);
}

#[test]
fn random_graph_of_one_node_has_no_edge() {
    let graph = generate_random_graph(1, 50);
    assert!(graph.nodes().is_empty());
}

#[test]
fn random_graph_without_draws_is_empty() {
    assert!(generate_random_graph(10, 0).nodes().is_empty());
    assert!(generate_random_graph(0, 0).nodes().is_empty());
}

#[test]
fn drawn_pair_adds_an_edge_unless_it_is_a_loop() {
    let mut graph = Graph::new();
    graph.add_drawn_pair(1, 2);
    graph.add_drawn_pair(1, 1);
    graph.add_drawn_pair(2, 2);
    graph.add_drawn_pair(1, 3);
    assert_eq!(graph.neighbors(1), &[2, 3]);
    assert!(graph.neighbors(2).is_empty());
    assert_eq!(graph.nodes(), vec![1]);
}
