use graph_stats::Graph;
use std::collections::HashMap;

fn s(text: &str) -> String {
    text.to_string()
}

fn path_graph() -> Graph {
    let mut graph = Graph::new();
    graph.add_edge(s("A"), s("B"));
    graph.add_edge(s("B"), s("C"));
    graph.add_edge(s("C"), s("D"));
    graph
}

#[test]
fn test_graph_construction() {
    let mut graph = Graph::new();
    graph.add_edge("A".to_string(), "B".to_string());
    graph.add_edge("A".to_string(), "C".to_string());

    assert_eq!(graph.degree_of(&"A".to_string()).unwrap(), 2);
    assert_eq!(graph.degree_of(&"B".to_string()).unwrap(), 1);
}

#[test]
fn test_degree_distribution() {
    let mut graph = Graph::new();
    graph.add_edge("A".to_string(), "B".to_string());
    graph.add_edge("A".to_string(), "C".to_string());

    let distribution = graph.degree_distribution();
    assert_eq!(distribution[&2], 1);
    assert_eq!(distribution[&1], 2);
}

#[test]
fn test_neighbors_at_distance_two() {
    let mut graph = Graph::new();
    graph.add_edge("A".to_string(), "B".to_string());
    graph.add_edge("B".to_string(), "C".to_string());
    graph.add_edge("C".to_string(), "D".to_string());

    assert_eq!(graph.neighbors_at_distance_two(&"A".to_string()), 1);
    // From B the walk goes over A back to B, which is left out, and over C to
    // B and D: only D remains.
    assert_eq!(graph.neighbors_at_distance_two(&"B".to_string()), 1);
}

#[test]
fn empty_graph_has_no_nodes() {
    let graph = Graph::new();
    assert_eq!(graph.node_count(), 0);
    assert!(graph.degree_distribution().is_empty());
    assert_eq!(graph.degree_of(&s("A")), None);
}

#[test]
fn added_edge_is_symmetric() {
    let mut graph = Graph::new();
    graph.add_edge(s("left"), s("right"));
    assert!(graph.are_neighbors(&s("left"), &s("right")));
    assert!(graph.are_neighbors(&s("right"), &s("left")));
    assert!(!graph.are_neighbors(&s("left"), &s("left")));
    assert!(!graph.are_neighbors(&s("left"), &s("absent")));
    assert!(!graph.are_neighbors(&s("absent"), &s("left")));
}

#[test]
fn adding_an_edge_twice_changes_nothing() {
    let mut once = Graph::new();
    once.add_edge(s("A"), s("B"));
    let mut twice = Graph::new();
    twice.add_edge(s("A"), s("B"));
    twice.add_edge(s("A"), s("B"));
    twice.add_edge(s("B"), s("A"));
    assert_eq!(twice.node_count(), once.node_count());
    assert_eq!(twice.degree_of(&s("A")), Some(1));
    assert_eq!(twice.degree_of(&s("B")), Some(1));
    assert_eq!(twice.degree_distribution(), once.degree_distribution());
}

#[test]
fn self_loop_makes_a_node_its_own_neighbour() {
    let mut graph = Graph::new();
    graph.add_edge(s("X"), s("X"));
    assert_eq!(graph.node_count(), 1);
    assert_eq!(graph.degree_of(&s("X")), Some(1));
    assert!(graph.are_neighbors(&s("X"), &s("X")));
    assert_eq!(graph.neighbors_at_distance_two(&s("X")), 0);
}

#[test]
fn distribution_counts_sum_to_node_count() {
    let mut graph = path_graph();
    graph.add_edge(s("A"), s("E"));
    graph.add_edge(s("A"), s("F"));
    let distribution = graph.degree_distribution();
    let total: usize = distribution.values().sum();
    assert_eq!(total, graph.node_count());
    assert_eq!(total, 6);
    let mut expected = HashMap::new();
    expected.insert(1usize, 3usize);
    expected.insert(2usize, 2usize);
    expected.insert(3usize, 1usize);
    assert_eq!(distribution, expected);
}

#[test]
fn two_hop_of_absent_node_is_zero() {
    let graph = path_graph();
    assert_eq!(graph.neighbors_at_distance_two(&s("Z")), 0);
    assert_eq!(Graph::new().neighbors_at_distance_two(&s("A")), 0);
}

#[test]
fn two_hop_counts_each_node_once() {
    // D is reached from A over B and over C.
    let mut graph = Graph::new();
    graph.add_edge(s("A"), s("B"));
    graph.add_edge(s("A"), s("C"));
    graph.add_edge(s("B"), s("D"));
    graph.add_edge(s("C"), s("D"));
    assert_eq!(graph.neighbors_at_distance_two(&s("A")), 1);
    assert_eq!(graph.neighbors_at_distance_two(&s("D")), 1);
    assert_eq!(graph.neighbors_at_distance_two(&s("B")), 1);
}

#[test]
fn two_hop_includes_direct_neighbours_in_a_triangle() {
    let mut graph = Graph::new();
    graph.add_edge(s("A"), s("B"));
    graph.add_edge(s("B"), s("C"));
    graph.add_edge(s("C"), s("A"));
    assert_eq!(graph.neighbors_at_distance_two(&s("A")), 2);
}

#[test]
fn path_graph_end_reaches_one_node() {
    let graph = path_graph();
    assert_eq!(graph.neighbors_at_distance_two(&s("A")), 1);
    assert_eq!(graph.neighbors_at_distance_two(&s("D")), 1);
    assert_eq!(graph.neighbors_at_distance_two(&s("C")), 1);
}
