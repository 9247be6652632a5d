use graph_algorithms::demo::{assert_components_partition, demo_structure, DemoStructure};
use graph_algorithms::graph::NodeId;
use trueno_graph::CsrGraph;

/// The demo graph: 0→2, 1→2, 2→3, 2→4, 3→2, 4→2.
fn demo_graph() -> CsrGraph {
    let edges = [
        (trueno_graph::NodeId(0), trueno_graph::NodeId(2), 1.0_f32),
        (trueno_graph::NodeId(1), trueno_graph::NodeId(2), 1.0_f32),
        (trueno_graph::NodeId(2), trueno_graph::NodeId(3), 1.0_f32),
        (trueno_graph::NodeId(2), trueno_graph::NodeId(4), 1.0_f32),
        (trueno_graph::NodeId(3), trueno_graph::NodeId(2), 1.0_f32),
        (trueno_graph::NodeId(4), trueno_graph::NodeId(2), 1.0_f32),
    ];
    CsrGraph::from_edge_list(&edges).unwrap()
}

fn run() -> DemoStructure {
    demo_structure(&demo_graph()).unwrap()
}

#[test]
fn sccs_are_3_components_with_hub_cycle() {
    let r = run();
    assert_eq!(r.sccs.len(), 3);
    let big = r.sccs.iter().max_by_key(|c| c.len()).expect("at least one SCC");
    assert_eq!(big.len(), 3);
    let mut big_ids: Vec<u32> = big.iter().map(|n| n.0).collect();
    big_ids.sort();
    assert_eq!(big_ids, vec![2, 3, 4]);
}

#[test]
fn sccs_partition_total_matches_node_count() {
    let r = run();
    let total: usize = r.sccs.iter().map(|c| c.len()).sum();
    assert_eq!(total, 5);
}

#[test]
fn assert_components_partition_passes_on_real_sccs() {
    let r = run();
    assert_components_partition(r.num_nodes, &r.sccs);
}

// Further cases.

#[test]
fn demo_structure_reads_nodes_and_bfs() {
    let r = run();
    assert_eq!(r.num_nodes, 5);
    let mut reached = r.bfs_order.clone();
    reached.sort();
    assert_eq!(reached, vec![0, 2, 3, 4]);
}

#[test]
fn demo_partition_check_accepts_partition() {
    let sccs = vec![vec![NodeId(1)], vec![NodeId(0)], vec![NodeId(2), NodeId(4), NodeId(3)]];
    assert_components_partition(5, &sccs);
}

#[test]
fn demo_partition_check_accepts_empty() {
    assert_components_partition(0, &[]);
}

#[test]
fn demo_structure_on_empty_graph_fails_search() {
    let r = demo_structure(&CsrGraph::new());
    assert!(matches!(r, Err(graph_algorithms::demo::DemoError::Bfs(_))));
}

#[test]
fn demo_components_group_mutually_reachable_nodes() {
    let r = run();
    let mut comps: Vec<Vec<u32>> = r
        .sccs
        .iter()
        .map(|c| {
            let mut v: Vec<u32> = c.iter().map(|n| n.0).collect();
            v.sort();
            v
        })
        .collect();
    comps.sort();
    assert_eq!(comps, vec![vec![0], vec![1], vec![2, 3, 4]]);
}
