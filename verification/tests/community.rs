use graph_algorithms::community::{
    assert_components_partition, connected_components, kosaraju, partition_violation,
    PartitionViolation,
};
use graph_algorithms::graph::{Edge, Graph, NodeId};

#[test]
fn components_single_node() {
    let g = Graph::with_capacity(1);
    assert_eq!(connected_components(&g), vec![vec![NodeId(0)]]);
}

#[test]
fn components_two_islands() {
    let mut g = Graph::with_capacity(4);
    g.add_undirected(Edge::new(NodeId(0), NodeId(1), 1)).unwrap();
    g.add_undirected(Edge::new(NodeId(2), NodeId(3), 1)).unwrap();
    let c = connected_components(&g);
    assert_eq!(c.len(), 2);
    assert_eq!(c[0], vec![NodeId(0), NodeId(1)]);
    assert_eq!(c[1], vec![NodeId(2), NodeId(3)]);
}

#[test]
fn components_directed_link_unifies() {
    let mut g = Graph::with_capacity(3);
    g.add_directed(Edge::new(NodeId(0), NodeId(1), 1)).unwrap();
    g.add_directed(Edge::new(NodeId(2), NodeId(1), 1)).unwrap();
    let c = connected_components(&g);
    assert_eq!(c.len(), 1);
    assert_eq!(c[0], vec![NodeId(0), NodeId(1), NodeId(2)]);
}

#[test]
fn components_revisit_via_stack() {
    let mut g = Graph::with_capacity(3);
    g.add_undirected(Edge::new(NodeId(0), NodeId(1), 1)).unwrap();
    g.add_undirected(Edge::new(NodeId(1), NodeId(2), 1)).unwrap();
    g.add_undirected(Edge::new(NodeId(0), NodeId(2), 1)).unwrap();
    let c = connected_components(&g);
    assert_eq!(c.len(), 1);
    assert_eq!(c[0].len(), 3);
}

#[test]
fn kosaraju_acyclic_three_components() {
    let mut g = Graph::with_capacity(3);
    g.add_directed(Edge::new(NodeId(0), NodeId(1), 1)).unwrap();
    g.add_directed(Edge::new(NodeId(1), NodeId(2), 1)).unwrap();
    let s = kosaraju(&g);
    assert_eq!(s.len(), 3);
    for c in &s {
        assert_eq!(c.len(), 1);
    }
}

#[test]
fn kosaraju_cycle_one_component() {
    let mut g = Graph::with_capacity(3);
    g.add_directed(Edge::new(NodeId(0), NodeId(1), 1)).unwrap();
    g.add_directed(Edge::new(NodeId(1), NodeId(2), 1)).unwrap();
    g.add_directed(Edge::new(NodeId(2), NodeId(0), 1)).unwrap();
    let s = kosaraju(&g);
    assert_eq!(s.len(), 1);
    assert_eq!(s[0].len(), 3);
}

#[test]
fn kosaraju_two_sccs_chained() {
    let mut g = Graph::with_capacity(4);
    g.add_directed(Edge::new(NodeId(0), NodeId(1), 1)).unwrap();
    g.add_directed(Edge::new(NodeId(1), NodeId(0), 1)).unwrap();
    g.add_directed(Edge::new(NodeId(1), NodeId(2), 1)).unwrap();
    g.add_directed(Edge::new(NodeId(2), NodeId(3), 1)).unwrap();
    g.add_directed(Edge::new(NodeId(3), NodeId(2), 1)).unwrap();
    let s = kosaraju(&g);
    assert_eq!(s.len(), 2);
    assert_components_partition(&g, &s);
}

#[test]
fn kosaraju_triangle_with_chord_one_scc() {
    let mut g = Graph::with_capacity(3);
    g.add_directed(Edge::new(NodeId(0), NodeId(1), 1)).unwrap();
    g.add_directed(Edge::new(NodeId(0), NodeId(2), 1)).unwrap();
    g.add_directed(Edge::new(NodeId(1), NodeId(0), 1)).unwrap();
    g.add_directed(Edge::new(NodeId(1), NodeId(2), 1)).unwrap();
    g.add_directed(Edge::new(NodeId(2), NodeId(0), 1)).unwrap();
    let s = kosaraju(&g);
    assert_eq!(s.len(), 1);
    assert_eq!(s[0].len(), 3);
}

#[test]
fn kosaraju_isolated_nodes() {
    let g = Graph::with_capacity(3);
    let s = kosaraju(&g);
    assert_eq!(s.len(), 3);
    for c in &s {
        assert_eq!(c.len(), 1);
    }
}

#[test]
fn assert_partition_passes_on_kosaraju() {
    let mut g = Graph::with_capacity(2);
    g.add_directed(Edge::new(NodeId(0), NodeId(1), 1)).unwrap();
    g.add_directed(Edge::new(NodeId(1), NodeId(0), 1)).unwrap();
    let s = kosaraju(&g);
    assert_components_partition(&g, &s);
}

// Further cases.

#[test]
fn partition_violation_reports_duplicate() {
    let bad = vec![vec![NodeId(0)], vec![NodeId(0), NodeId(1)]];
    assert_eq!(partition_violation(2, &bad), Some(PartitionViolation::Duplicate(0)));
}

#[test]
fn partition_violation_reports_missing() {
    let bad = vec![vec![NodeId(0)], vec![NodeId(1)]];
    assert_eq!(partition_violation(3, &bad), Some(PartitionViolation::Missing(2)));
}

#[test]
fn partition_violation_reports_out_of_range() {
    let bad = vec![vec![NodeId(0), NodeId(7)]];
    assert_eq!(partition_violation(2, &bad), Some(PartitionViolation::OutOfRange(7)));
}

#[test]
fn partition_violation_accepts_partition() {
    let good = vec![vec![NodeId(2), NodeId(0)], vec![NodeId(1)]];
    assert_eq!(partition_violation(3, &good), None);
}

#[test]
fn kosaraju_orders_components_by_smallest_node() {
    // {3 ↔ 4} ← 0, {1 ↔ 2}: components ordered by their smallest node.
    let mut g = Graph::with_capacity(5);
    for (a, b) in [(3, 4), (4, 3), (0, 3), (1, 2), (2, 1)] {
        g.add_directed(Edge::new(NodeId(a), NodeId(b), 1)).unwrap();
    }
    let s = kosaraju(&g);
    let keys: Vec<u32> = s.iter().map(|c| c.iter().map(|n| n.0).min().unwrap()).collect();
    assert_eq!(keys, vec![0, 1, 3]);
    let mut sizes: Vec<usize> = s.iter().map(|c| c.len()).collect();
    sizes.sort();
    assert_eq!(sizes, vec![1, 2, 2]);
}

#[test]
fn components_of_empty_graph() {
    let g = Graph::with_capacity(0);
    assert!(connected_components(&g).is_empty());
    assert!(kosaraju(&g).is_empty());
}

#[test]
fn weak_components_sorted_inside_and_out() {
    // 4 → 0, 3 → 1, 2 isolated: {0,4}, {1,3}, {2}.
    let mut g = Graph::with_capacity(5);
    g.add_directed(Edge::new(NodeId(4), NodeId(0), 1)).unwrap();
    g.add_directed(Edge::new(NodeId(3), NodeId(1), 1)).unwrap();
    assert_eq!(
        connected_components(&g),
        vec![
            vec![NodeId(0), NodeId(4)],
            vec![NodeId(1), NodeId(3)],
            vec![NodeId(2)]
        ]
    );
}

#[test]
fn strong_components_lie_inside_weak_components() {
    let mut g = Graph::with_capacity(7);
    for (a, b) in [(0, 1), (1, 0), (1, 2), (3, 4), (4, 3), (5, 6)] {
        g.add_directed(Edge::new(NodeId(a), NodeId(b), 1)).unwrap();
    }
    let weak = connected_components(&g);
    let strong = kosaraju(&g);
    assert_eq!(weak.len(), 3);
    assert_eq!(strong.len(), 5);
    for c in &strong {
        assert!(weak.iter().any(|w| c.iter().all(|x| w.contains(x))));
    }
}

#[test]
fn kosaraju_groups_exactly_the_mutually_reachable_nodes() {
    // 0 → 1 → 2 → 0, 2 → 3 → 4 → 3: {0, 1, 2} and {3, 4}.
    let mut g = Graph::with_capacity(5);
    for (a, b) in [(0, 1), (1, 2), (2, 0), (2, 3), (3, 4), (4, 3)] {
        g.add_directed(Edge::new(NodeId(a), NodeId(b), 1)).unwrap();
    }
    let mut s: Vec<Vec<u32>> = kosaraju(&g)
        .into_iter()
        .map(|c| {
            let mut ids: Vec<u32> = c.iter().map(|n| n.0).collect();
            ids.sort();
            ids
        })
        .collect();
    s.sort();
    assert_eq!(s, vec![vec![0, 1, 2], vec![3, 4]]);
}

fn sample_graph() -> Graph {
    // 0 → 1 → 2 → 0, 2 → 3, 4 → 3, 5 isolated.
    let mut g = Graph::with_capacity(6);
    for (a, b) in [(0, 1), (1, 2), (2, 0), (2, 3), (4, 3)] {
        g.add_directed(Edge::new(NodeId(a), NodeId(b), 1)).unwrap();
    }
    g
}

fn as_sets(comps: Vec<Vec<NodeId>>) -> Vec<Vec<u32>> {
    let mut v: Vec<Vec<u32>> = comps
        .into_iter()
        .map(|c| {
            let mut ids: Vec<u32> = c.into_iter().map(|n| n.0).collect();
            ids.sort();
            ids
        })
        .collect();
    v.sort();
    v
}

#[test]
fn transposing_keeps_weak_components() {
    let g = sample_graph();
    assert_eq!(connected_components(&g.transpose()), connected_components(&g));
}

#[test]
fn transposing_keeps_strong_components() {
    let g = sample_graph();
    let a = kosaraju(&g);
    let b = kosaraju(&g.transpose());
    assert_eq!(a.len(), b.len());
    assert_eq!(as_sets(a), as_sets(b));
}

#[test]
fn strong_components_are_at_least_as_many_as_weak() {
    let g = sample_graph();
    let strong = kosaraju(&g);
    let weak = connected_components(&g);
    assert_eq!(weak.len(), 2);
    assert_eq!(strong.len(), 4);
    assert!(strong.len() >= weak.len());
}
