use graph_algorithms::graph::{assert_edge_count_consistent, Edge, Graph, GraphError, NodeId};

#[test]
fn node_id_constructors() {
    assert_eq!(NodeId::new(7).0, 7);
    assert_eq!(NodeId(7).index(), 7);
}

#[test]
fn node_id_ordering() {
    assert!(NodeId(1) < NodeId(2));
}

#[test]
fn edge_new() {
    let e = Edge::new(NodeId(0), NodeId(1), 5);
    assert_eq!(e.from, NodeId(0));
    assert_eq!(e.to, NodeId(1));
    assert_eq!(e.weight, 5);
}

#[test]
fn empty_graph() {
    let g = Graph::with_capacity(3);
    assert_eq!(g.node_count(), 3);
    assert_eq!(g.edge_count(), 0);
    assert!(g.neighbors(NodeId(1)).is_empty());
}

#[test]
fn from_edges_directed() {
    let edges = [
        Edge::new(NodeId(0), NodeId(1), 1),
        Edge::new(NodeId(1), NodeId(2), 2),
    ];
    let g = Graph::from_edges(3, &edges).unwrap();
    assert_eq!(g.edge_count(), 2);
    assert_eq!(g.neighbors(NodeId(0)).len(), 1);
    assert_eq!(g.neighbors(NodeId(1)).len(), 1);
    assert_eq!(g.neighbors(NodeId(2)).len(), 0);
}

#[test]
fn from_edges_to_out_of_range() {
    let edges = [Edge::new(NodeId(0), NodeId(5), 1)];
    let err = Graph::from_edges(3, &edges).unwrap_err();
    assert_eq!(err, GraphError::NodeOutOfRange(5, 3));
}

#[test]
fn add_directed_from_out_of_range() {
    let mut g = Graph::with_capacity(2);
    let err = g
        .add_directed(Edge::new(NodeId(5), NodeId(0), 1))
        .unwrap_err();
    assert_eq!(err, GraphError::NodeOutOfRange(5, 2));
}

#[test]
fn add_undirected_creates_two_edges() {
    let mut g = Graph::with_capacity(2);
    g.add_undirected(Edge::new(NodeId(0), NodeId(1), 3)).unwrap();
    assert_eq!(g.edge_count(), 2);
    assert_eq!(g.neighbors(NodeId(0))[0].to, NodeId(1));
    assert_eq!(g.neighbors(NodeId(1))[0].to, NodeId(0));
}

#[test]
fn add_undirected_propagates_error() {
    let mut g = Graph::with_capacity(2);
    let err = g
        .add_undirected(Edge::new(NodeId(0), NodeId(9), 1))
        .unwrap_err();
    assert_eq!(err, GraphError::NodeOutOfRange(9, 2));
}

#[test]
fn nodes_iterates() {
    let g = Graph::with_capacity(4);
    let ns: Vec<NodeId> = g.nodes().into_iter().collect();
    assert_eq!(ns, vec![NodeId(0), NodeId(1), NodeId(2), NodeId(3)]);
}

#[test]
fn transpose_reverses_edges() {
    let edges = [
        Edge::new(NodeId(0), NodeId(1), 1),
        Edge::new(NodeId(1), NodeId(2), 2),
    ];
    let g = Graph::from_edges(3, &edges).unwrap();
    let t = g.transpose();
    assert_eq!(t.edge_count(), 2);
    assert_eq!(t.neighbors(NodeId(1))[0].to, NodeId(0));
    assert_eq!(t.neighbors(NodeId(2))[0].to, NodeId(1));
}

#[test]
fn graph_error_display() {
    let e = GraphError::NodeOutOfRange(7, 3);
    assert_eq!(e.message(), "node id 7 out of range (graph has 3 nodes)");
}

#[test]
fn graph_error_clone_debug() {
    let e = GraphError::NodeOutOfRange(7, 3);
    let _ = format!("{e:?}");
    let _ = e.clone();
}

#[test]
fn graph_clone_eq_debug() {
    let g = Graph::with_capacity(3);
    let h = g.clone();
    assert_eq!(g, h);
    let _ = format!("{g:?}");
}

#[test]
fn edge_clone_debug() {
    let e = Edge::new(NodeId(0), NodeId(1), 1);
    let _ = format!("{e:?}");
    assert_eq!(e, e);
}

#[test]
fn assert_edge_count_consistent_passes() {
    let edges = [Edge::new(NodeId(0), NodeId(1), 1)];
    let g = Graph::from_edges(2, &edges).unwrap();
    assert_edge_count_consistent(&g);
}

// Further cases.

#[test]
fn from_edges_reports_first_bad_endpoint() {
    // The source is checked before the destination, and the first bad edge wins.
    let edges = [
        Edge::new(NodeId(0), NodeId(1), 1),
        Edge::new(NodeId(4), NodeId(6), 1),
        Edge::new(NodeId(0), NodeId(7), 1),
    ];
    assert_eq!(
        Graph::from_edges(3, &edges).unwrap_err(),
        GraphError::NodeOutOfRange(4, 3)
    );
}

#[test]
fn failed_add_leaves_graph_unchanged() {
    let mut g = Graph::with_capacity(2);
    g.add_directed(Edge::new(NodeId(0), NodeId(1), 4)).unwrap();
    let before = g.clone();
    assert!(g.add_directed(Edge::new(NodeId(1), NodeId(2), 1)).is_err());
    assert_eq!(g, before);
    assert_eq!(g.edge_count(), 1);
}

#[test]
fn neighbors_keep_insertion_order() {
    let edges = [
        Edge::new(NodeId(0), NodeId(2), 9),
        Edge::new(NodeId(0), NodeId(1), 8),
    ];
    let g = Graph::from_edges(3, &edges).unwrap();
    assert_eq!(g.neighbors(NodeId(0)), &edges[..]);
}

#[test]
fn transpose_twice_restores_edges() {
    let edges = [
        Edge::new(NodeId(0), NodeId(1), 1),
        Edge::new(NodeId(2), NodeId(1), 2),
        Edge::new(NodeId(1), NodeId(0), 3),
    ];
    let g = Graph::from_edges(3, &edges).unwrap();
    let tt = g.transpose().transpose();
    assert_eq!(tt.edge_count(), g.edge_count());
    for v in g.nodes() {
        let mut a: Vec<(u32, u32, u32)> = g.neighbors(v).iter().map(|e| (e.from.0, e.to.0, e.weight)).collect();
        let mut b: Vec<(u32, u32, u32)> = tt.neighbors(v).iter().map(|e| (e.from.0, e.to.0, e.weight)).collect();
        a.sort();
        b.sort();
        assert_eq!(a, b);
    }
}

#[test]
fn transpose_keeps_weights() {
    let edges = [Edge::new(NodeId(0), NodeId(1), 42)];
    let t = Graph::from_edges(2, &edges).unwrap().transpose();
    assert_eq!(t.neighbors(NodeId(1)), &[Edge::new(NodeId(1), NodeId(0), 42)][..]);
    assert!(t.neighbors(NodeId(0)).is_empty());
}

#[test]
fn zero_node_graph() {
    let g = Graph::with_capacity(0);
    assert_eq!(g.node_count(), 0);
    assert!(g.nodes().is_empty());
    assert_eq!(Graph::from_edges(0, &[Edge::new(NodeId(0), NodeId(0), 1)]).unwrap_err(), GraphError::NodeOutOfRange(0, 0));
}

#[test]
fn double_transpose_permutes_each_list() {
    let mut g = Graph::with_capacity(4);
    for (a, b, w) in [(0, 1, 3), (0, 2, 1), (0, 1, 3), (2, 0, 5), (3, 0, 2), (1, 3, 4)] {
        g.add_directed(Edge::new(NodeId(a), NodeId(b), w)).unwrap();
    }
    let tt = g.transpose().transpose();
    assert_eq!(tt.node_count(), g.node_count());
    assert_eq!(tt.edge_count(), g.edge_count());
    for u in 0..4 {
        let mut x: Vec<(u32, u32, u32)> = tt.neighbors(NodeId(u)).iter().map(|e| (e.from.0, e.to.0, e.weight)).collect();
        let mut y: Vec<(u32, u32, u32)> = g.neighbors(NodeId(u)).iter().map(|e| (e.from.0, e.to.0, e.weight)).collect();
        x.sort();
        y.sort();
        assert_eq!(x, y);
    }
}
