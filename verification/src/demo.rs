//! The `aprender-graph` demo's structural side: breadth-first order and
//! strongly-connected components of a CSR graph, computed by
//! `trueno_graph`, with the components checked to partition the nodes.

use vstd::prelude::*;
use trueno_graph::CsrGraph;
use crate::graph::{Edge, NodeId};
use crate::paths::{mutual, reachable};
use crate::community::{comps_view, grouped_by, is_partition, listed, partition_violation};

verus! {

/// A compressed-sparse-row graph of `trueno_graph`, held as it is.
#[verifier::external_type_specification]
#[verifier::external_body]
pub struct ExCsrGraph(CsrGraph);

/// What a CSR graph holds: for each node, in order, the targets of its
/// outgoing edges.
pub uninterp spec fn csr_adjacency(g: CsrGraph) -> Seq<Seq<u32>>;

/// The CSR adjacency as library edges (weights play no part in reaching).
pub open spec fn csr_edges(adj: Seq<Seq<u32>>) -> Seq<Seq<Edge>> {
    Seq::new(
        adj.len(),
        |i: int|
            Seq::new(
                adj[i].len(),
                |j: int| Edge { from: NodeId(i as u32), to: NodeId(adj[i][j]), weight: 0 },
            ),
    )
}

/// `CsrGraph::num_nodes`: the number of nodes, one per row of the CSR.
#[verifier::external_body]
fn csr_num_nodes(g: &CsrGraph) -> (r: usize)
    ensures
        r == csr_adjacency(*g).len(),
{
    g.num_nodes()
}

/// `trueno_graph::bfs` from `source`: it fails, with its error message,
/// exactly when `source` is not a node (the first neighbour lookup is the
/// only failing step, and every edge target is a node); otherwise it
/// returns, with no repeats, exactly the nodes reachable from `source`,
/// in the order in which its hash set yields them. That order is left
/// unsaid.
#[verifier::external_body]
fn csr_bfs(g: &CsrGraph, source: u32) -> (r: Result<Vec<u32>, String>)
    requires
        csr_adjacency(*g).len() <= u32::MAX + 1,
    ensures
        r is Ok <==> source < csr_adjacency(*g).len(),
        r matches Ok(v) ==> v@.no_duplicates(),
        r matches Ok(v) ==> forall|x: u32|
            v@.contains(x) <==> reachable(csr_edges(csr_adjacency(*g)), source as nat, x as nat),
{
    trueno_graph::bfs(g, trueno_graph::NodeId(source)).map_err(|e| e.to_string())
}

/// `trueno_graph::kosaraju_scc`: its strongly-connected components, with
/// each id as a library node id. They partition the nodes, and two nodes
/// share a component exactly when each reaches the other, as the function's
/// documentation states; the order of the components and of the nodes in
/// each is left unsaid.
#[verifier::external_body]
fn csr_sccs(g: &CsrGraph) -> (r: Vec<Vec<NodeId>>)
    requires
        csr_adjacency(*g).len() <= u32::MAX + 1,
    ensures
        is_partition(csr_adjacency(*g).len(), comps_view(r@)),
        grouped_by(comps_view(r@), |a: nat, b: nat| mutual(csr_edges(csr_adjacency(*g)), a, b)),
{
    trueno_graph::kosaraju_scc(g).into_iter().map(|c| c.into_iter().map(|n| NodeId(n.0)).collect()).collect()
}

/// What the demo reads off its graph.
#[derive(Debug, Clone, PartialEq, Eq)]
pub struct DemoStructure {
    /// Number of nodes.
    pub num_nodes: usize,
    /// Nodes that breadth-first search from node 0 visits.
    pub bfs_order: Vec<u32>,
    /// Strongly-connected components.
    pub sccs: Vec<Vec<NodeId>>,
}

/// Why the demo's structural run failed.
#[derive(Debug, Clone, PartialEq, Eq)]
pub enum DemoError {
    /// Breadth-first search failed, with its message.
    Bfs(String),
    /// The node count is beyond what 32-bit ids can list.
    TooManyNodes(usize),
}

/// Runs breadth-first search from node 0 and the strongly-connected
/// component search on `g`, and checks that the components partition the
/// nodes. It succeeds exactly when the graph has between 1 and 2^32 nodes;
/// then the search result is the set of nodes reachable from node 0 and
/// the components are the classes of mutual reachability.
pub fn demo_structure(g: &CsrGraph) -> (r: Result<DemoStructure, DemoError>)
    ensures
        r is Ok <==> 1 <= csr_adjacency(*g).len() <= u32::MAX + 1,
        r matches Err(DemoError::TooManyNodes(_)) <==> csr_adjacency(*g).len() > u32::MAX + 1,
        r matches Err(DemoError::TooManyNodes(n)) ==> n == csr_adjacency(*g).len(),
        r matches Err(DemoError::Bfs(_)) <==> csr_adjacency(*g).len() == 0,
        r matches Ok(d) ==> d.num_nodes == csr_adjacency(*g).len(),
        r matches Ok(d) ==> d.bfs_order@.no_duplicates(),
        r matches Ok(d) ==> forall|x: u32|
            d.bfs_order@.contains(x) <==> reachable(csr_edges(csr_adjacency(*g)), 0, x as nat),
        r matches Ok(d) ==> is_partition(d.num_nodes as nat, comps_view(d.sccs@)),
        r matches Ok(d) ==> grouped_by(
            comps_view(d.sccs@),
            |a: nat, b: nat| mutual(csr_edges(csr_adjacency(*g)), a, b),
        ),
{
    let num_nodes = csr_num_nodes(g);
    if num_nodes as u64 > 0x1_0000_0000u64 {
        return Err(DemoError::TooManyNodes(num_nodes));
    }
    let bfs_order = match csr_bfs(g, 0) {
        Ok(o) => o,
        Err(e) => return Err(DemoError::Bfs(e)),
    };
    let sccs = csr_sccs(g);
    assert_components_partition(num_nodes, sccs.as_slice());
    Ok(DemoStructure { num_nodes, bfs_order, sccs })
}

/// A partition of `0..n` lists node `n - 1`, so `n` is at most one more
/// than the largest id.
proof fn lemma_partition_size(n: nat, comps: Seq<Seq<NodeId>>)
    requires
        is_partition(n, comps),
    ensures
        n <= u32::MAX + 1,
{
    if n > 0 {
        assert(listed(comps, (n - 1) as nat));
    }
}

/// Checks that `comps` partitions the nodes `0..num_nodes`: every node
/// appears in exactly one component and no component lists anything else.
pub fn assert_components_partition(num_nodes: usize, comps: &[Vec<NodeId>])
    requires
        is_partition(num_nodes as nat, comps_view(comps@)),
{
    proof {
        lemma_partition_size(num_nodes as nat, comps_view(comps@));
    }
    let r = partition_violation(num_nodes, comps);
    assert(r is None);
}

} // verus!
