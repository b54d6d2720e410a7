use data_structures::graph::{DirectedGraph, Graph, UndirectedGraph};
use std::collections::HashSet;

fn edge(from: &str, to: &str, weight: i32) -> (String, String, i32) {
    (String::from(from), String::from(to), weight)
}

#[test]
fn test_add_edge() {
    let mut graph = UndirectedGraph::new();

    graph.add_edge(("a", "b", 5));
    graph.add_edge(("b", "c", 10));
    graph.add_edge(("c", "a", 7));

    let expected_edges = [
        edge("a", "b", 5),
        edge("b", "a", 5),
        edge("c", "a", 7),
        edge("a", "c", 7),
        edge("b", "c", 10),
        edge("c", "b", 10),
    ];
    for edge in expected_edges.iter() {
        assert_eq!(graph.edges().contains(edge), true);
    }
}

#[test]
fn test_neighbours() {
    let mut graph = UndirectedGraph::new();

    graph.add_edge(("a", "b", 5));
    graph.add_edge(("b", "c", 10));
    graph.add_edge(("c", "a", 7));

    assert_eq!(
        graph.neighbours("a").unwrap(),
        &vec![(String::from("b"), 5), (String::from("c"), 7)]
    );
}

#[test]
fn test_add_node() {
    let mut graph = DirectedGraph::new();
    graph.add_node("a");
    graph.add_node("b");
    graph.add_node("c");
    let nodes = graph.nodes();
    assert_eq!(
        nodes.iter().collect::<HashSet<&String>>(),
        [&String::from("a"), &String::from("b"), &String::from("c")]
            .iter()
            .cloned()
            .collect()
    );
}

#[test]
fn graph_test_add_edge() {
    let mut graph = DirectedGraph::new();

    graph.add_edge(("a", "b", 5));
    graph.add_edge(("c", "a", 7));
    graph.add_edge(("b", "c", 10));

    let expected_edges = [edge("a", "b", 5), edge("c", "a", 7), edge("b", "c", 10)];
    for edge in expected_edges.iter() {
        assert_eq!(graph.edges().contains(edge), true);
    }
}

#[test]
fn graph_test_neighbours() {
    let mut graph = DirectedGraph::new();

    graph.add_edge(("a", "b", 5));
    graph.add_edge(("b", "c", 10));
    graph.add_edge(("c", "a", 7));

    assert_eq!(
        graph.neighbours("a").unwrap(),
        &vec![(String::from("b"), 5)]
    );
}

#[test]
fn test_contains() {
    let mut graph = DirectedGraph::new();
    graph.add_node("a");
    graph.add_node("b");
    graph.add_node("c");
    assert_eq!(graph.contains("a"), true);
    assert_eq!(graph.contains("b"), true);
    assert_eq!(graph.contains("c"), true);
    assert_eq!(graph.contains("d"), false);
}

#[test]
fn graph_counts_every_edge_once() {
    let mut directed = DirectedGraph::new();
    directed.add_edge(("a", "b", 1));
    directed.add_edge(("a", "b", 1));
    directed.add_edge(("b", "b", 2));
    directed.add_node("a");
    assert_eq!(directed.nodes(), vec![String::from("a"), String::from("b")]);
    assert_eq!(
        directed.edges(),
        vec![edge("a", "b", 1), edge("a", "b", 1), edge("b", "b", 2)]
    );
    assert!(directed.neighbours("z").is_none());
    assert_eq!(directed.adjacency_table().nodes().len(), 2);

    let mut undirected = UndirectedGraph::new();
    undirected.add_edge(("x", "y", 3));
    assert_eq!(undirected.edges(), vec![edge("x", "y", 3), edge("y", "x", 3)]);
    undirected.adjacency_table_mut().add_node("z");
    assert!(undirected.contains("z"));
    assert_eq!(undirected.neighbours("z").unwrap().len(), 0);
}
