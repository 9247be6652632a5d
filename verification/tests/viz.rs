use graph_algorithms::graph::{Edge, Graph, NodeId};
use graph_algorithms::viz::to_dot;

#[test]
fn empty_graph_emits_only_braces() {
    let g = Graph::with_capacity(0);
    let dot = to_dot(&g);
    assert_eq!(dot, "digraph G {\n}\n");
}

#[test]
fn single_node_no_edges() {
    let g = Graph::with_capacity(1);
    let dot = to_dot(&g);
    assert!(dot.contains("0 [label=\"0\"];"));
    assert!(!dot.contains("->"));
}

#[test]
fn two_nodes_one_edge() {
    let mut g = Graph::with_capacity(2);
    g.add_directed(Edge::new(NodeId(0), NodeId(1), 5)).unwrap();
    let dot = to_dot(&g);
    assert!(dot.contains("0 -> 1 [label=\"5\"];"));
    assert!(dot.contains("0 [label=\"0\"];"));
    assert!(dot.contains("1 [label=\"1\"];"));
}

#[test]
fn dot_output_ends_with_newline() {
    let g = Graph::with_capacity(1);
    let dot = to_dot(&g);
    assert!(dot.ends_with("}\n"));
}

// Further cases.

#[test]
fn dot_exact_text() {
    let mut g = Graph::with_capacity(3);
    g.add_directed(Edge::new(NodeId(2), NodeId(0), 12)).unwrap();
    g.add_directed(Edge::new(NodeId(0), NodeId(1), 7)).unwrap();
    g.add_directed(Edge::new(NodeId(0), NodeId(2), 3)).unwrap();
    assert_eq!(
        to_dot(&g),
        "digraph G {\n  0 [label=\"0\"];\n  1 [label=\"1\"];\n  2 [label=\"2\"];\n  0 -> 1 [label=\"7\"];\n  0 -> 2 [label=\"3\"];\n  2 -> 0 [label=\"12\"];\n}\n"
    );
}

#[test]
fn dot_large_ids_and_weights() {
    let mut g = Graph::with_capacity(11);
    g.add_directed(Edge::new(NodeId(10), NodeId(9), u32::MAX)).unwrap();
    let dot = to_dot(&g);
    assert!(dot.contains("  10 [label=\"10\"];\n"));
    assert!(dot.contains("  10 -> 9 [label=\"4294967295\"];\n"));
}
