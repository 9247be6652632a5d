use graph_algorithms::graph::{Edge, Graph, NodeId};
use graph_algorithms::traversal::{
    assert_bfs_distance_monotonic, bfs, bfs_order_violation, dfs, dijkstra,
};

fn line_graph(n: usize) -> Graph {
    // 0 — 1 — 2 — … — n-1, undirected, weight 1
    let mut g = Graph::with_capacity(n);
    for i in 0..n.saturating_sub(1) {
        g.add_undirected(Edge::new(NodeId(i as u32), NodeId(i as u32 + 1), 1))
            .unwrap();
    }
    g
}

#[test]
fn bfs_line_graph() {
    let g = line_graph(4);
    let order = bfs(&g, NodeId(0));
    assert_eq!(order, vec![NodeId(0), NodeId(1), NodeId(2), NodeId(3)]);
}

#[test]
fn bfs_only_visits_reachable() {
    let mut g = Graph::with_capacity(4);
    g.add_undirected(Edge::new(NodeId(0), NodeId(1), 1)).unwrap();
    g.add_undirected(Edge::new(NodeId(1), NodeId(2), 1)).unwrap();
    let order = bfs(&g, NodeId(0));
    assert_eq!(order.len(), 3);
    assert!(!order.contains(&NodeId(3)));
}

#[test]
fn bfs_skips_revisited_neighbor() {
    let mut g = Graph::with_capacity(3);
    g.add_undirected(Edge::new(NodeId(0), NodeId(1), 1)).unwrap();
    g.add_undirected(Edge::new(NodeId(1), NodeId(2), 1)).unwrap();
    g.add_undirected(Edge::new(NodeId(0), NodeId(2), 1)).unwrap();
    let order = bfs(&g, NodeId(0));
    assert_eq!(order.len(), 3);
}

#[test]
fn dfs_line_graph() {
    let g = line_graph(4);
    let order = dfs(&g, NodeId(0));
    assert_eq!(order, vec![NodeId(0), NodeId(1), NodeId(2), NodeId(3)]);
}

#[test]
fn dfs_branching() {
    let mut g = Graph::with_capacity(5);
    g.add_directed(Edge::new(NodeId(0), NodeId(1), 1)).unwrap();
    g.add_directed(Edge::new(NodeId(0), NodeId(2), 1)).unwrap();
    g.add_directed(Edge::new(NodeId(1), NodeId(3), 1)).unwrap();
    g.add_directed(Edge::new(NodeId(2), NodeId(4), 1)).unwrap();
    let order = dfs(&g, NodeId(0));
    assert_eq!(
        order,
        vec![NodeId(0), NodeId(1), NodeId(3), NodeId(2), NodeId(4)]
    );
}

#[test]
fn dfs_handles_revisit_via_stack() {
    let mut g = Graph::with_capacity(3);
    g.add_directed(Edge::new(NodeId(0), NodeId(1), 1)).unwrap();
    g.add_directed(Edge::new(NodeId(0), NodeId(2), 1)).unwrap();
    g.add_directed(Edge::new(NodeId(1), NodeId(2), 1)).unwrap();
    let order = dfs(&g, NodeId(0));
    assert_eq!(order.len(), 3);
}

#[test]
fn dijkstra_line_graph_distances() {
    let g = line_graph(4);
    let d = dijkstra(&g, NodeId(0));
    assert_eq!(d, vec![Some(0), Some(1), Some(2), Some(3)]);
}

#[test]
fn dijkstra_unreachable_node_is_none() {
    let mut g = Graph::with_capacity(3);
    g.add_directed(Edge::new(NodeId(0), NodeId(1), 5)).unwrap();
    let d = dijkstra(&g, NodeId(0));
    assert_eq!(d, vec![Some(0), Some(5), None]);
}

#[test]
fn dijkstra_picks_shorter_alternative() {
    let mut g = Graph::with_capacity(3);
    g.add_directed(Edge::new(NodeId(0), NodeId(1), 10)).unwrap();
    g.add_directed(Edge::new(NodeId(0), NodeId(2), 1)).unwrap();
    g.add_directed(Edge::new(NodeId(2), NodeId(1), 1)).unwrap();
    let d = dijkstra(&g, NodeId(0));
    assert_eq!(d, vec![Some(0), Some(2), Some(1)]);
}

#[test]
fn dijkstra_lazy_deletion_skips_stale_entry() {
    let mut g = Graph::with_capacity(3);
    g.add_directed(Edge::new(NodeId(0), NodeId(1), 5)).unwrap();
    g.add_directed(Edge::new(NodeId(0), NodeId(2), 1)).unwrap();
    g.add_directed(Edge::new(NodeId(2), NodeId(1), 1)).unwrap();
    let d = dijkstra(&g, NodeId(0));
    assert_eq!(d[1], Some(2));
}

#[test]
fn assert_bfs_monotonic_passes_on_real_bfs() {
    let g = line_graph(5);
    let order = bfs(&g, NodeId(0));
    assert_bfs_distance_monotonic(&g, NodeId(0), &order);
}

// Further cases.

#[test]
fn bfs_levels_never_decrease() {
    // 0 → 1, 0 → 2, 1 → 3, 2 → 3, 3 → 4: levels 0, 1, 1, 2, 3.
    let mut g = Graph::with_capacity(5);
    for (a, b) in [(0, 1), (0, 2), (1, 3), (2, 3), (3, 4)] {
        g.add_directed(Edge::new(NodeId(a), NodeId(b), 1)).unwrap();
    }
    let order = bfs(&g, NodeId(0));
    assert_eq!(order, vec![NodeId(0), NodeId(1), NodeId(2), NodeId(3), NodeId(4)]);
    assert_bfs_distance_monotonic(&g, NodeId(0), &order);
}

#[test]
fn bfs_from_isolated_node_is_just_the_source() {
    let g = Graph::with_capacity(3);
    assert_eq!(bfs(&g, NodeId(2)), vec![NodeId(2)]);
    assert_eq!(dfs(&g, NodeId(2)), vec![NodeId(2)]);
}

#[test]
fn bfs_and_dfs_reach_the_same_nodes() {
    let mut g = Graph::with_capacity(6);
    for (a, b) in [(0, 1), (1, 2), (2, 0), (2, 3), (4, 5)] {
        g.add_directed(Edge::new(NodeId(a), NodeId(b), 1)).unwrap();
    }
    let mut a = bfs(&g, NodeId(0));
    let mut b = dfs(&g, NodeId(0));
    a.sort();
    b.sort();
    assert_eq!(a, b);
    assert_eq!(a, vec![NodeId(0), NodeId(1), NodeId(2), NodeId(3)]);
}

#[test]
fn dfs_follows_first_neighbor_first() {
    // 0 → 2, 0 → 1: the first stored neighbor (2) is visited first.
    let mut g = Graph::with_capacity(3);
    g.add_directed(Edge::new(NodeId(0), NodeId(2), 1)).unwrap();
    g.add_directed(Edge::new(NodeId(0), NodeId(1), 1)).unwrap();
    assert_eq!(dfs(&g, NodeId(0)), vec![NodeId(0), NodeId(2), NodeId(1)]);
}

#[test]
fn dijkstra_saturates_at_u32_max() {
    // Two heavy edges in a row: the sum saturates instead of wrapping.
    let mut g = Graph::with_capacity(3);
    g.add_directed(Edge::new(NodeId(0), NodeId(1), u32::MAX - 1)).unwrap();
    g.add_directed(Edge::new(NodeId(1), NodeId(2), 5)).unwrap();
    let d = dijkstra(&g, NodeId(0));
    assert_eq!(d, vec![Some(0), Some(u32::MAX - 1), Some(u32::MAX)]);
}

#[test]
fn dijkstra_zero_weight_cycle() {
    let mut g = Graph::with_capacity(3);
    g.add_directed(Edge::new(NodeId(0), NodeId(1), 0)).unwrap();
    g.add_directed(Edge::new(NodeId(1), NodeId(0), 0)).unwrap();
    g.add_directed(Edge::new(NodeId(1), NodeId(2), 7)).unwrap();
    assert_eq!(dijkstra(&g, NodeId(1)), vec![Some(0), Some(0), Some(7)]);
}

#[test]
fn dijkstra_finds_distances_exactly_for_bfs_nodes() {
    let mut g = Graph::with_capacity(6);
    for (a, b, w) in [(0, 1, 4), (1, 2, 1), (3, 0, 2), (2, 4, 9), (5, 5, 1)] {
        g.add_directed(Edge::new(NodeId(a), NodeId(b), w)).unwrap();
    }
    let order = bfs(&g, NodeId(0));
    let dist = dijkstra(&g, NodeId(0));
    for v in 0..6u32 {
        assert_eq!(dist[v as usize].is_some(), order.contains(&NodeId(v)));
    }
    assert_eq!(dist, vec![Some(0), Some(4), Some(5), None, Some(14), None]);
}

#[test]
fn dfs_backtracks_to_deepest_node_with_unvisited_neighbor() {
    // 0 → 1, 0 → 4, 1 → 2, 1 → 3, 2 → 0: after 2 the search backs up to 1.
    let mut g = Graph::with_capacity(5);
    for (a, b) in [(0, 1), (0, 4), (1, 2), (1, 3), (2, 0)] {
        g.add_directed(Edge::new(NodeId(a), NodeId(b), 1)).unwrap();
    }
    assert_eq!(
        dfs(&g, NodeId(0)),
        vec![NodeId(0), NodeId(1), NodeId(2), NodeId(3), NodeId(4)]
    );
    assert_eq!(
        bfs(&g, NodeId(0)),
        vec![NodeId(0), NodeId(1), NodeId(4), NodeId(2), NodeId(3)]
    );
}

#[test]
fn bfs_order_check_finds_incomplete_prefix() {
    // 0 — 1 — 2: node 2 (distance 2) may not come before node 1 (distance 1).
    let g = line_graph(3);
    assert_eq!(bfs_order_violation(&g, NodeId(0), &[NodeId(0), NodeId(2)]), Some(1));
    assert_eq!(bfs_order_violation(&g, NodeId(0), &[NodeId(0), NodeId(1), NodeId(2)]), None);
    assert_eq!(bfs_order_violation(&g, NodeId(0), &[NodeId(1), NodeId(0)]), Some(0));
}

#[test]
fn bfs_order_check_finds_decreasing_level() {
    let g = line_graph(3);
    assert_eq!(
        bfs_order_violation(&g, NodeId(0), &[NodeId(0), NodeId(1), NodeId(2), NodeId(1)]),
        Some(3)
    );
}

#[test]
fn real_bfs_orders_pass_the_check() {
    let mut g = Graph::with_capacity(6);
    for (a, b) in [(0, 1), (0, 2), (1, 3), (2, 3), (3, 4), (5, 0)] {
        g.add_directed(Edge::new(NodeId(a), NodeId(b), 1)).unwrap();
    }
    for s in 0..6 {
        let order = bfs(&g, NodeId(s));
        assert_eq!(bfs_order_violation(&g, NodeId(s), &order), None);
        assert_bfs_distance_monotonic(&g, NodeId(s), &order);
    }
}
