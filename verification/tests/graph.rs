use cyclic_graph::Graph;

#[test]
fn test_add_node_and_get_value() {
    let mut graph = Graph::new();
    let index = graph.add_node(42);
    assert_eq!(graph.get_node_value(index), Some(42));
}

#[test]
fn test_add_edge_and_neighbors() {
    let mut graph = Graph::new();
    let node_a = graph.add_node("A");
    let node_b = graph.add_node("B");
    graph.add_edge(node_a, node_b);
    let neighbors = graph.neighbors_of(node_a).unwrap();
    assert_eq!(neighbors, vec!["B"]);
}

#[test]
fn test_cycle() {
    let mut graph = Graph::new();
    let node_a = graph.add_node("A");
    let node_b = graph.add_node("B");
    let node_c = graph.add_node("C");

    graph.add_edge(node_a, node_b);
    graph.add_edge(node_b, node_c);
    graph.add_edge(node_c, node_a);

    let neighbors_a = graph.neighbors_of(node_a).unwrap();
    assert_eq!(neighbors_a, vec!["B"]);

    let neighbors_b = graph.neighbors_of(node_b).unwrap();
    assert_eq!(neighbors_b, vec!["C"]);

    let neighbors_c = graph.neighbors_of(node_c).unwrap();
    assert_eq!(neighbors_c, vec!["A"]);
}

#[test]
fn test_nonexistent_node() {
    let graph: Graph<i32> = Graph::new();
    assert_eq!(graph.get_node_value(0), None);
    assert_eq!(graph.neighbors_of(0), None);
}

#[test]
fn test_indices_count_up_from_zero() {
    let mut graph = Graph::new();
    assert_eq!(graph.add_node(10), 0);
    assert_eq!(graph.add_node(20), 1);
    assert_eq!(graph.add_node(30), 2);
    assert_eq!(graph.get_node_value(0), Some(10));
    assert_eq!(graph.get_node_value(1), Some(20));
    assert_eq!(graph.get_node_value(2), Some(30));
}

#[test]
fn test_reads_absent_beyond_node_count() {
    let mut graph = Graph::new();
    graph.add_node(1);
    graph.add_node(2);
    assert_eq!(graph.get_node_value(2), None);
    assert_eq!(graph.get_node_value(100), None);
    assert_eq!(graph.neighbors_of(2), None);
    assert_eq!(graph.neighbors_of(100), None);
}

#[test]
fn test_new_node_has_no_neighbors() {
    let mut graph = Graph::new();
    let a = graph.add_node("lonely");
    assert_eq!(graph.neighbors_of(a), Some(vec![]));
}

#[test]
fn test_new_edge_is_last_neighbor() {
    let mut graph = Graph::new();
    let a = graph.add_node("A");
    let b = graph.add_node("B");
    let c = graph.add_node("C");
    graph.add_edge(a, b);
    graph.add_edge(a, c);
    let neighbors = graph.neighbors_of(a).unwrap();
    assert_eq!(neighbors, vec!["B", "C"]);
    assert_eq!(neighbors.last(), Some(&"C"));
}

#[test]
fn test_self_loop() {
    let mut graph = Graph::new();
    let a = graph.add_node("A");
    graph.add_edge(a, a);
    assert_eq!(graph.neighbors_of(a), Some(vec!["A"]));
}

#[test]
fn test_duplicate_edges_preserved() {
    let mut graph = Graph::new();
    let a = graph.add_node("A");
    let b = graph.add_node("B");
    graph.add_edge(a, b);
    graph.add_edge(a, b);
    assert_eq!(graph.neighbors_of(a), Some(vec!["B", "B"]));
}

#[test]
fn test_cycle_stable_under_repeated_reads() {
    let mut graph = Graph::new();
    let a = graph.add_node(1);
    let b = graph.add_node(2);
    graph.add_edge(a, b);
    graph.add_edge(b, a);
    for _ in 0..10 {
        assert_eq!(graph.neighbors_of(a), Some(vec![2]));
        assert_eq!(graph.neighbors_of(b), Some(vec![1]));
    }
}
