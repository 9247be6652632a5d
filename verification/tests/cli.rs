use graph_algorithms::cli::{answer, build_graph, check_source, comps_to_u32, Answer, CliError, Input, Query};
use graph_algorithms::graph::{Edge, Graph, GraphError, NodeId};

/// 0 → 1, 1 → 2, 2 → 0 (one SCC of 3).
fn input() -> Input {
    Input {
        nodes: 3,
        edges: vec![
            Edge::new(NodeId(0), NodeId(1), 1),
            Edge::new(NodeId(1), NodeId(2), 1),
            Edge::new(NodeId(2), NodeId(0), 1),
        ],
    }
}

fn run_query(q: Query) -> Answer {
    let g = build_graph(&input()).unwrap();
    answer(&g, q).unwrap()
}

#[test]
fn cli_bfs() {
    assert_eq!(run_query(Query::Bfs { source: 0 }), Answer::Bfs { order: vec![0, 1, 2] });
}

#[test]
fn cli_dfs() {
    assert_eq!(run_query(Query::Dfs { source: 0 }), Answer::Dfs { order: vec![0, 1, 2] });
}

#[test]
fn cli_dijkstra() {
    assert_eq!(
        run_query(Query::Dijkstra { source: 0 }),
        Answer::Dijkstra { distances: vec![Some(0), Some(1), Some(2)] }
    );
}

#[test]
fn cli_components() {
    assert_eq!(
        run_query(Query::Components),
        Answer::Components { components: vec![vec![0, 1, 2]] }
    );
}

#[test]
fn cli_scc() {
    let out = run_query(Query::Scc);
    assert!(matches!(
        &out,
        Answer::Scc { components } if components.len() == 1 && components[0].len() == 3
    ));
}

#[test]
fn cli_dot() {
    let out = run_query(Query::Dot);
    assert!(matches!(
        &out,
        Answer::Dot { dot } if dot.starts_with("digraph G {") && dot.contains("0 -> 1")
    ));
}

#[test]
fn source_out_of_range_errors() {
    let g = build_graph(&input()).unwrap();
    let err = answer(&g, Query::Bfs { source: 9 }).unwrap_err();
    assert!(err.message().contains("source 9 out of range"));
}

#[test]
fn graph_constructor_error_propagates() {
    let bad = Input { nodes: 2, edges: vec![Edge::new(NodeId(0), NodeId(9), 1)] };
    let err = build_graph(&bad).unwrap_err();
    assert!(err.message().contains("out of range"));
}

#[test]
fn output_clone_debug() {
    let o = Answer::Bfs { order: vec![0, 1] };
    let _ = format!("{o:?}");
    let _ = o.clone();
}

// Further cases.

#[test]
fn check_source_bounds() {
    let g = Graph::with_capacity(3);
    assert_eq!(check_source(&g, 2), Ok(()));
    assert_eq!(check_source(&g, 3), Err(CliError::SourceOutOfRange(3, 3)));
    assert_eq!(
        CliError::SourceOutOfRange(3, 3).message(),
        "source 3 out of range (graph has 3 nodes)"
    );
}

#[test]
fn every_sourced_query_checks_its_source() {
    let g = build_graph(&input()).unwrap();
    for q in [Query::Bfs { source: 3 }, Query::Dfs { source: 3 }, Query::Dijkstra { source: 3 }] {
        assert_eq!(answer(&g, q), Err(CliError::SourceOutOfRange(3, 3)));
    }
}

#[test]
fn build_graph_error_is_graph_error() {
    let bad = Input { nodes: 2, edges: vec![Edge::new(NodeId(0), NodeId(9), 1)] };
    assert_eq!(build_graph(&bad).unwrap_err(), CliError::Graph(GraphError::NodeOutOfRange(9, 2)));
    assert_eq!(
        CliError::Graph(GraphError::NodeOutOfRange(9, 2)).message(),
        "node id 9 out of range (graph has 2 nodes)"
    );
}

#[test]
fn comps_to_u32_keeps_shape() {
    let comps = vec![vec![NodeId(3), NodeId(1)], vec![], vec![NodeId(0)]];
    assert_eq!(comps_to_u32(comps), vec![vec![3, 1], vec![], vec![0]]);
}

#[test]
fn scc_answer_on_two_cycles() {
    let inp = Input {
        nodes: 4,
        edges: vec![
            Edge::new(NodeId(2), NodeId(3), 1),
            Edge::new(NodeId(3), NodeId(2), 1),
            Edge::new(NodeId(0), NodeId(2), 1),
        ],
    };
    let g = build_graph(&inp).unwrap();
    match answer(&g, Query::Scc).unwrap() {
        Answer::Scc { components } => {
            let mut sorted: Vec<Vec<u32>> = components
                .into_iter()
                .map(|mut c| {
                    c.sort();
                    c
                })
                .collect();
            sorted.sort();
            assert_eq!(sorted, vec![vec![0], vec![1], vec![2, 3]]);
        }
        other => panic!("unexpected answer {other:?}"),
    }
}

#[test]
fn command_answers_match_the_library_functions() {
    let inp = Input {
        nodes: 5,
        edges: vec![
            Edge::new(NodeId(0), NodeId(1), 4),
            Edge::new(NodeId(1), NodeId(2), 1),
            Edge::new(NodeId(0), NodeId(2), 7),
            Edge::new(NodeId(3), NodeId(4), 2),
        ],
    };
    let g = build_graph(&inp).unwrap();
    let comps = graph_algorithms::community::connected_components(&g);
    assert_eq!(
        answer(&g, Query::Components).unwrap(),
        Answer::Components { components: comps_to_u32(comps) }
    );
    assert_eq!(
        answer(&g, Query::Dijkstra { source: 0 }).unwrap(),
        Answer::Dijkstra { distances: graph_algorithms::traversal::dijkstra(&g, NodeId(0)) }
    );
    let order: Vec<u32> = graph_algorithms::traversal::bfs(&g, NodeId(0)).iter().map(|n| n.0).collect();
    assert_eq!(answer(&g, Query::Bfs { source: 0 }).unwrap(), Answer::Bfs { order });
    let order: Vec<u32> = graph_algorithms::traversal::dfs(&g, NodeId(0)).iter().map(|n| n.0).collect();
    assert_eq!(answer(&g, Query::Dfs { source: 0 }).unwrap(), Answer::Dfs { order });
    let sets = |c: Vec<Vec<u32>>| -> Vec<Vec<u32>> {
        c.into_iter()
            .map(|mut v| {
                v.sort();
                v
            })
            .collect()
    };
    match answer(&g, Query::Scc).unwrap() {
        Answer::Scc { components } => assert_eq!(
            sets(components),
            sets(comps_to_u32(graph_algorithms::community::kosaraju(&g)))
        ),
        other => panic!("unexpected answer {other:?}"),
    }
}
