//! The `graph` command's logic: build the graph from its input, check the
//! source node, run the chosen algorithm and shape its answer. Reading the
//! input and writing the answer are left to the caller.

use vstd::prelude::*;
use crate::graph::{
    well_formed_adj, Edge, Graph, GraphError, NodeId, assert_edge_count_consistent, error_message, first_edge_error,
    lists_of,
};
use crate::paths::{
    is_walk, lemma_walk_wc, mutual, no_cheaper_walk, no_farther, reachable, walk_cost, walk_weight,
    weakly_connected,
};
use crate::traversal::{
    bfs, dfs, dfs_tree, dijkstra, discovered_in_order, discovery, entered_from_earlier, key_before,
    lemma_dfs_prefix_agrees,
};
use crate::community::{
    assert_components_partition, comp_key, comps_view, connected_components, grouped_by, lemma_comp_key,
    is_partition, kosaraju, listed, sorted_components,
};
use crate::viz::{dot_text, to_dot};
use crate::text::{dec, push_decimal};

verus! {

/// The command's input: the number of nodes and the directed edges.
#[derive(Debug, Clone, PartialEq, Eq)]
pub struct Input {
    /// Total node count.
    pub nodes: usize,
    /// The edges.
    pub edges: Vec<Edge>,
}

/// Why a command failed.
#[derive(Debug, Clone, PartialEq, Eq, Structural)]
pub enum CliError {
    /// The input's edges do not fit its node count.
    Graph(GraphError),
    /// The source node is not a node of the graph (the source, then the
    /// number of nodes).
    SourceOutOfRange(u32, usize),
}

/// The sentence that describes a command error.
pub open spec fn cli_error_message(e: CliError) -> Seq<char> {
    match e {
        CliError::Graph(g) => error_message(g),
        CliError::SourceOutOfRange(s, n) => "source "@ + dec(s as nat) + " out of range (graph has "@
            + dec(n as nat) + " nodes)"@,
    }
}

impl CliError {
    /// The error as a sentence.
    pub fn message(&self) -> (r: String)
        ensures
            r@ == cli_error_message(*self),
    {
        match self {
            CliError::Graph(g) => g.message(),
            CliError::SourceOutOfRange(s, n) => {
                let mut r = String::from_str("source ");
                push_decimal(&mut r, *s as u64);
                r.append(" out of range (graph has ");
                push_decimal(&mut r, *n as u64);
                r.append(" nodes)");
                r
            },
        }
    }
}

/// The commands whose answers are exact: everything but PageRank.
#[derive(Debug, Clone, Copy, PartialEq, Eq, Structural)]
pub enum Query {
    /// Breadth-first visit order from `source`.
    Bfs {
        /// Starting node.
        source: u32,
    },
    /// Depth-first visit order from `source`.
    Dfs {
        /// Starting node.
        source: u32,
    },
    /// Shortest-path distances from `source`.
    Dijkstra {
        /// Starting node.
        source: u32,
    },
    /// Weakly-connected components.
    Components,
    /// Strongly-connected components.
    Scc,
    /// Graphviz DOT text.
    Dot,
}

/// A command's answer, node ids as plain integers.
#[derive(Debug, Clone, PartialEq, Eq)]
pub enum Answer {
    /// Breadth-first visit order.
    Bfs {
        /// The visit order.
        order: Vec<u32>,
    },
    /// Depth-first visit order.
    Dfs {
        /// The visit order.
        order: Vec<u32>,
    },
    /// Distance from the source to each node, `None` when unreachable.
    Dijkstra {
        /// Distances.
        distances: Vec<Option<u32>>,
    },
    /// Weakly-connected components.
    Components {
        /// One list per component.
        components: Vec<Vec<u32>>,
    },
    /// Strongly-connected components.
    Scc {
        /// One list per component.
        components: Vec<Vec<u32>>,
    },
    /// DOT text.
    Dot {
        /// The Graphviz source.
        dot: String,
    },
}

/// Node ids read back from plain integers.
pub open spec fn nodes_of(s: Seq<u32>) -> Seq<NodeId> {
    s.map_values(|x: u32| NodeId(x))
}

/// Component lists read back from plain integers.
pub open spec fn comps_of(c: Seq<Vec<u32>>) -> Seq<Seq<NodeId>> {
    c.map_values(|v: Vec<u32>| nodes_of(v@))
}

/// The properties of a breadth-first visit order from `s`, as `bfs`
/// guarantees them.
pub open spec fn bfs_visit(adj: Seq<Seq<Edge>>, s: nat, order: Seq<NodeId>) -> bool {
    &&& order.len() > 0
    &&& order[0].0 == s
    &&& order.no_duplicates()
    &&& forall|i: int| 0 <= i < order.len() ==> reachable(adj, s, #[trigger] order[i].0 as nat)
    &&& forall|v: nat| #[trigger] reachable(adj, s, v) ==> order.contains(NodeId(v as u32))
    &&& forall|i: int, j: int|
        0 <= i <= j < order.len() ==> no_farther(
            adj,
            s,
            #[trigger] order[i].0 as nat,
            #[trigger] order[j].0 as nat,
        )
    &&& exists|par: Seq<(int, int)>| #[trigger] discovered_in_order(adj, order, par)
}

/// Two orders that agree before position `j` discover a node through the
/// same key when both discover it from a node before `j`.
proof fn lemma_discovery_key_agrees(
    adj: Seq<Seq<Edge>>,
    o1: Seq<NodeId>,
    o2: Seq<NodeId>,
    key1: (int, int),
    p: int,
    key2: (int, int),
    q: int,
    j: int,
)
    requires
        discovery(adj, o1, key1, p),
        discovery(adj, o2, key2, q),
        o1[p] == o2[q],
        key2.0 < j,
        key1.0 < j,
        j <= o1.len(),
        j <= o2.len(),
        forall|x: int| 0 <= x < j ==> o1[x] == o2[x],
    ensures
        key1 == key2,
{
    let (a, b) = key1;
    let (c, d) = key2;
    if a < c {
        assert(o1[a] == o2[a]);
        assert(adj[o2[a].0 as int][b].to == o2[q]);
    } else if c < a {
        assert(o1[c] == o2[c]);
        assert(adj[o1[c].0 as int][d].to == o1[p]);
    } else {
        assert(o1[a] == o2[a]);
        if b < d {
            assert(adj[o2[c].0 as int][b].to == o2[q]);
        } else if d < b {
            assert(adj[o1[a].0 as int][d].to == o1[p]);
        }
    }
}

/// Two breadth-first visit orders from the same node that list the same
/// nodes agree wherever both are defined.
proof fn lemma_bfs_prefix_agrees(
    adj: Seq<Seq<Edge>>,
    s: nat,
    o1: Seq<NodeId>,
    o2: Seq<NodeId>,
    par1: Seq<(int, int)>,
    par2: Seq<(int, int)>,
    j: int,
)
    requires
        bfs_visit(adj, s, o1),
        bfs_visit(adj, s, o2),
        discovered_in_order(adj, o1, par1),
        discovered_in_order(adj, o2, par2),
        0 <= j <= o1.len(),
        j <= o2.len(),
    ensures
        forall|x: int| 0 <= x < j ==> o1[x] == o2[x],
    decreases j,
{
    if j > 0 {
        let i = j - 1;
        lemma_bfs_prefix_agrees(adj, s, o1, o2, par1, par2, i);
        if i > 0 && o1[i] != o2[i] {
            let x = o2[i];
            assert(reachable(adj, s, x.0 as nat));
            assert(o1.contains(NodeId(x.0 as u32)));
            let p = choose|p: int| 0 <= p < o1.len() && o1[p] == NodeId(x.0 as u32);
            assert(o1[p] == x);
            if p < i {
                assert(o1[p] == o2[p]);
            }
            assert(p > i);
            let y = o1[i];
            assert(reachable(adj, s, y.0 as nat));
            assert(o2.contains(NodeId(y.0 as u32)));
            let q = choose|q: int| 0 <= q < o2.len() && o2[q] == NodeId(y.0 as u32);
            assert(o2[q] == y);
            if q < i {
                assert(o1[q] == o2[q]);
            }
            assert(q > i);
            assert(discovery(adj, o1, par1[p], p));
            assert(discovery(adj, o2, par2[i], i));
            assert(discovery(adj, o1, par1[i], i));
            assert(discovery(adj, o2, par2[q], q));
            assert(key_before(par1[i], par1[p]));
            assert(key_before(par2[i], par2[q]));
            assert(par2[i].0 < i);
            assert(par1[i].0 < i);
            if par1[p].0 < i {
                lemma_discovery_key_agrees(adj, o1, o2, par1[p], p, par2[i], i, i);
            }
            if par2[q].0 < i {
                lemma_discovery_key_agrees(adj, o1, o2, par1[i], i, par2[q], q, i);
            }
            assert(false);
        }
        if i == 0 {
            assert(o1[0].0 == s && o2[0].0 == s);
        }
    }
}

/// Law: the breadth-first visit order is unique: any two orders that meet
/// `bfs_visit` from the same node are equal, so the command's order is the
/// one `bfs` returns.
pub proof fn lemma_bfs_visit_unique(adj: Seq<Seq<Edge>>, s: nat, o1: Seq<NodeId>, o2: Seq<NodeId>)
    requires
        bfs_visit(adj, s, o1),
        bfs_visit(adj, s, o2),
    ensures
        o1 == o2,
{
    let par1 = choose|par: Seq<(int, int)>| #[trigger] discovered_in_order(adj, o1, par);
    let par2 = choose|par: Seq<(int, int)>| #[trigger] discovered_in_order(adj, o2, par);
    let m = if o1.len() <= o2.len() {
        o1.len() as int
    } else {
        o2.len() as int
    };
    lemma_bfs_prefix_agrees(adj, s, o1, o2, par1, par2, m);
    if o1.len() < o2.len() {
        let x = o2[m];
        assert(reachable(adj, s, x.0 as nat));
        assert(o1.contains(NodeId(x.0 as u32)));
        let p = choose|p: int| 0 <= p < o1.len() && o1[p] == NodeId(x.0 as u32);
        assert(o2[p] == o1[p]);
    }
    if o2.len() < o1.len() {
        let x = o1[m];
        assert(reachable(adj, s, x.0 as nat));
        assert(o2.contains(NodeId(x.0 as u32)));
        let p = choose|p: int| 0 <= p < o2.len() && o2[p] == NodeId(x.0 as u32);
        assert(o2[p] == o1[p]);
    }
    assert(o1 =~= o2);
}

/// The properties of a depth-first visit order from `s`, as `dfs`
/// guarantees them.
pub open spec fn dfs_visit(adj: Seq<Seq<Edge>>, s: nat, order: Seq<NodeId>) -> bool {
    &&& order.len() > 0
    &&& order[0].0 == s
    &&& order.no_duplicates()
    &&& forall|i: int| 0 <= i < order.len() ==> reachable(adj, s, #[trigger] order[i].0 as nat)
    &&& forall|v: nat| #[trigger] reachable(adj, s, v) ==> order.contains(NodeId(v as u32))
    &&& forall|i: int| 0 < i < order.len() ==> #[trigger] entered_from_earlier(adj, order, i)
    &&& exists|par: Seq<(int, int)>| #[trigger] dfs_tree(adj, order, par)
}

/// Law: the depth-first visit order is unique: any two orders that meet
/// `dfs_visit` from the same node are equal, so the command's order is the
/// one `dfs` returns.
pub proof fn lemma_dfs_visit_unique(adj: Seq<Seq<Edge>>, s: nat, o1: Seq<NodeId>, o2: Seq<NodeId>)
    requires
        dfs_visit(adj, s, o1),
        dfs_visit(adj, s, o2),
    ensures
        o1 == o2,
{
    let par1 = choose|par: Seq<(int, int)>| #[trigger] dfs_tree(adj, o1, par);
    let par2 = choose|par: Seq<(int, int)>| #[trigger] dfs_tree(adj, o2, par);
    let m = if o1.len() <= o2.len() {
        o1.len() as int
    } else {
        o2.len() as int
    };
    assert(o1[0] == o2[0]);
    lemma_dfs_prefix_agrees(adj, o1, o2, par1, par2, m);
    if o1.len() < o2.len() {
        let x = o2[m];
        assert(reachable(adj, s, x.0 as nat));
        assert(o1.contains(NodeId(x.0 as u32)));
        let p = choose|p: int| 0 <= p < o1.len() && o1[p] == NodeId(x.0 as u32);
        assert(o2[p] == o1[p]);
    }
    if o2.len() < o1.len() {
        let x = o1[m];
        assert(reachable(adj, s, x.0 as nat));
        assert(o2.contains(NodeId(x.0 as u32)));
        let p = choose|p: int| 0 <= p < o2.len() && o2[p] == NodeId(x.0 as u32);
        assert(o2[p] == o1[p]);
    }
    assert(o1 =~= o2);
}

/// Law: the depth-first command answers with exactly the order that `dfs`
/// returns, the one order that meets `dfs_visit`.
pub proof fn lemma_dfs_answer_is_the_order(
    adj: Seq<Seq<Edge>>,
    source: u32,
    r: Result<Answer, CliError>,
    order: Seq<NodeId>,
)
    requires
        source < adj.len(),
        answer_ok(adj, Query::Dfs { source }, r),
        dfs_visit(adj, source as nat, order),
    ensures
        r matches Ok(Answer::Dfs { order: o }) && nodes_of(o@) == order,
{
    if let Ok(Answer::Dfs { order: o }) = r {
        lemma_dfs_visit_unique(adj, source as nat, nodes_of(o@), order);
    }
}

/// The shortest-path distances from `s`, as `dijkstra` guarantees them.
pub open spec fn distances_from(adj: Seq<Seq<Edge>>, s: nat, dist: Seq<Option<u32>>) -> bool {
    &&& dist.len() == adj.len()
    &&& dist[s as int] == Some(0u32)
    &&& forall|v: nat| v < adj.len() ==> (#[trigger] dist[v as int] is Some <==> reachable(adj, s, v))
    &&& forall|v: nat|
        v < adj.len() && #[trigger] dist[v as int] is Some ==> walk_cost(adj, s, v, dist[v as int]->0 as nat)
            && no_cheaper_walk(adj, s, v, dist[v as int]->0 as nat)
}

/// The weakly-connected components, as `connected_components` lists them.
pub open spec fn weak_components(adj: Seq<Seq<Edge>>, comps: Seq<Seq<NodeId>>) -> bool {
    &&& is_partition(adj.len(), comps)
    &&& sorted_components(comps)
    &&& grouped_by(comps, |a: nat, b: nat| weakly_connected(adj, a, b))
}

/// Two strictly increasing sequences with the same elements are equal.
proof fn lemma_increasing_same_elems(s1: Seq<nat>, s2: Seq<nat>)
    requires
        forall|i: int, j: int| 0 <= i < j < s1.len() ==> #[trigger] s1[i] < #[trigger] s1[j],
        forall|i: int, j: int| 0 <= i < j < s2.len() ==> #[trigger] s2[i] < #[trigger] s2[j],
        forall|x: nat| s1.contains(x) <==> s2.contains(x),
    ensures
        s1 == s2,
    decreases s1.len(),
{
    if s1.len() == 0 {
        if s2.len() > 0 {
            assert(s2.contains(s2[0]));
        }
        assert(s1 =~= s2);
    } else {
        assert(s1.contains(s1[0]));
        let k = choose|k: int| 0 <= k < s2.len() && s2[k] == s1[0];
        assert(s2.contains(s2[0]));
        let m = choose|m: int| 0 <= m < s1.len() && s1[m] == s2[0];
        if k > 0 {
            assert(s2[0] < s2[k]);
        }
        if m > 0 {
            assert(s1[0] < s1[m]);
        }
        assert(s1[0] == s2[0]);
        let t1 = s1.drop_first();
        let t2 = s2.drop_first();
        assert forall|x: nat| t1.contains(x) <==> t2.contains(x) by {
            if t1.contains(x) {
                let a = choose|a: int| 0 <= a < t1.len() && t1[a] == x;
                assert(s1[a + 1] == x && s1[0] < s1[a + 1]);
                assert(s1.contains(x));
                let b = choose|b: int| 0 <= b < s2.len() && s2[b] == x;
                assert(b != 0);
                assert(t2[b - 1] == x);
            }
            if t2.contains(x) {
                let a = choose|a: int| 0 <= a < t2.len() && t2[a] == x;
                assert(s2[a + 1] == x && s2[0] < s2[a + 1]);
                assert(s2.contains(x));
                let b = choose|b: int| 0 <= b < s1.len() && s1[b] == x;
                assert(b != 0);
                assert(t1[b - 1] == x);
            }
        }
        assert forall|i: int, j: int| 0 <= i < j < t1.len() implies #[trigger] t1[i] < #[trigger] t1[j] by {
            assert(s1[i + 1] < s1[j + 1]);
        }
        assert forall|i: int, j: int| 0 <= i < j < t2.len() implies #[trigger] t2[i] < #[trigger] t2[j] by {
            assert(s2[i + 1] < s2[j + 1]);
        }
        lemma_increasing_same_elems(t1, t2);
        assert forall|i: int| 0 <= i < s1.len() implies s1[i] == s2[i] by {
            if i > 0 {
                assert(s1[i] == t1[i - 1]);
                assert(s2[i] == t2[i - 1]);
            }
        }
        assert(s1 =~= s2);
    }
}

/// No smaller node is weakly connected to `v`: `v` is the smallest node of
/// its weak component.
pub open spec fn smallest_of_class(adj: Seq<Seq<Edge>>, v: nat) -> bool {
    v < adj.len() && forall|u: nat| u < v ==> !#[trigger] weakly_connected(adj, u, v)
}

/// The ids of a listing's components' first nodes.
pub open spec fn first_ids(comps: Seq<Seq<NodeId>>) -> Seq<nat> {
    Seq::new(comps.len(), |i: int| comps[i][0].0 as nat)
}

/// The ids of a component's nodes.
pub open spec fn ids_of(c: Seq<NodeId>) -> Seq<nat> {
    Seq::new(c.len(), |a: int| c[a].0 as nat)
}

/// In a weak-component listing, component `i` holds exactly the nodes
/// weakly connected to its first node, and its first node is the smallest
/// of its class.
proof fn lemma_weak_component_members(adj: Seq<Seq<Edge>>, c: Seq<Seq<NodeId>>, i: int, v: nat)
    requires
        weak_components(adj, c),
        0 <= i < c.len(),
    ensures
        ids_of(c[i]).contains(v) <==> (v < adj.len() && weakly_connected(adj, c[i][0].0 as nat, v)),
        smallest_of_class(adj, c[i][0].0 as nat),
{
    let rel = |a: nat, b: nat| weakly_connected(adj, a, b);
    assert(c[i].len() > 0);
    if ids_of(c[i]).contains(v) {
        let a = choose|a: int| 0 <= a < ids_of(c[i]).len() && ids_of(c[i])[a] == v;
        assert(c[i][a].0 == v);
        assert(rel(c[i][0].0 as nat, c[i][a].0 as nat));
    }
    if v < adj.len() && weakly_connected(adj, c[i][0].0 as nat, v) {
        assert(listed(c, v));
        let (j, b) = choose|j: int, b: int| 0 <= j < c.len() && 0 <= b < c[j].len() && (#[trigger] c[j][b]).0 == v;
        assert(rel(c[i][0].0 as nat, c[j][b].0 as nat) <==> i == j);
        assert(ids_of(c[i])[b] == v);
    }
    assert forall|u: nat| u < c[i][0].0 as nat implies !#[trigger] weakly_connected(adj, u, c[i][0].0 as nat) by {
        if weakly_connected(adj, u, c[i][0].0 as nat) {
            assert(c[i][0].0 < adj.len());
            assert(listed(c, u));
            let (j, b) = choose|j: int, b: int| 0 <= j < c.len() && 0 <= b < c[j].len() && (#[trigger] c[j][b]).0 == u;
            assert(rel(c[j][b].0 as nat, c[i][0].0 as nat) <==> j == i);
            assert(j == i);
            if b > 0 {
                assert(c[i][0].0 < c[i][b].0);
            }
        }
    }
}

/// In a weak-component listing, the first nodes are exactly the smallest
/// nodes of their classes.
proof fn lemma_weak_first_ids(adj: Seq<Seq<Edge>>, c: Seq<Seq<NodeId>>, v: nat)
    requires
        weak_components(adj, c),
    ensures
        first_ids(c).contains(v) <==> smallest_of_class(adj, v),
{
    let rel = |a: nat, b: nat| weakly_connected(adj, a, b);
    if first_ids(c).contains(v) {
        let i = choose|i: int| 0 <= i < first_ids(c).len() && first_ids(c)[i] == v;
        lemma_weak_component_members(adj, c, i, v);
    }
    if smallest_of_class(adj, v) {
        assert(listed(c, v));
        let (i, b) = choose|i: int, b: int| 0 <= i < c.len() && 0 <= b < c[i].len() && (#[trigger] c[i][b]).0 == v;
        assert(c[i].len() > 0);
        assert(rel(c[i][0].0 as nat, c[i][b].0 as nat));
        if b > 0 {
            assert(c[i][0].0 < c[i][b].0);
            assert(!weakly_connected(adj, c[i][0].0 as nat, v));
        }
        assert(first_ids(c)[i] == v);
    }
}

/// Law: the weak-component listing of a graph is unique: sorted as it is,
/// any two listings that meet `weak_components` are equal.
pub proof fn lemma_weak_components_unique(adj: Seq<Seq<Edge>>, c1: Seq<Seq<NodeId>>, c2: Seq<Seq<NodeId>>)
    requires
        weak_components(adj, c1),
        weak_components(adj, c2),
    ensures
        c1 == c2,
{
    let m1 = first_ids(c1);
    let m2 = first_ids(c2);
    assert forall|x: nat| m1.contains(x) <==> m2.contains(x) by {
        lemma_weak_first_ids(adj, c1, x);
        lemma_weak_first_ids(adj, c2, x);
    }
    assert forall|i: int, j: int| 0 <= i < j < m1.len() implies #[trigger] m1[i] < #[trigger] m1[j] by {
        assert(c1[i][0].0 < c1[j][0].0);
    }
    assert forall|i: int, j: int| 0 <= i < j < m2.len() implies #[trigger] m2[i] < #[trigger] m2[j] by {
        assert(c2[i][0].0 < c2[j][0].0);
    }
    lemma_increasing_same_elems(m1, m2);
    assert(m1.len() == c1.len() && m2.len() == c2.len());
    assert(c1.len() == c2.len());
    assert forall|i: int| 0 <= i < c1.len() implies c1[i] == c2[i] by {
        assert(m1[i] == m2[i]);
        let k1 = ids_of(c1[i]);
        let k2 = ids_of(c2[i]);
        assert forall|v: nat| k1.contains(v) <==> k2.contains(v) by {
            lemma_weak_component_members(adj, c1, i, v);
            lemma_weak_component_members(adj, c2, i, v);
        }
        assert forall|a: int, b: int| 0 <= a < b < k1.len() implies #[trigger] k1[a] < #[trigger] k1[b] by {
            assert(c1[i][a].0 < c1[i][b].0);
        }
        assert forall|a: int, b: int| 0 <= a < b < k2.len() implies #[trigger] k2[a] < #[trigger] k2[b] by {
            assert(c2[i][a].0 < c2[i][b].0);
        }
        lemma_increasing_same_elems(k1, k2);
        assert(c1[i].len() == c2[i].len());
        assert forall|a: int| 0 <= a < c1[i].len() implies c1[i][a] == c2[i][a] by {
            assert(k1[a] == k2[a]);
        }
        assert(c1[i] =~= c2[i]);
    }
    assert(c1 =~= c2);
}

/// The strongly-connected components, as `kosaraju` guarantees them.
pub open spec fn strong_components(adj: Seq<Seq<Edge>>, comps: Seq<Seq<NodeId>>) -> bool {
    &&& is_partition(adj.len(), comps)
    &&& grouped_by(comps, |a: nat, b: nat| mutual(adj, a, b))
    &&& forall|i: int| 0 <= i < comps.len() ==> (#[trigger] comps[i]).len() > 0
    &&& forall|i: int, j: int|
        0 <= i < j < comps.len() ==> comp_key(#[trigger] comps[i]) < comp_key(#[trigger] comps[j])
    &&& forall|i: int, a: int|
        0 <= i < comps.len() && 0 <= a < comps[i].len() ==> reachable(
            adj,
            (#[trigger] comps[i][a]).0 as nat,
            comps[i][0].0 as nat,
        )
}

/// Law: breadth-first and depth-first search from one source visit the
/// same nodes.
pub proof fn lemma_bfs_dfs_same_nodes(adj: Seq<Seq<Edge>>, s: nat, b: Seq<NodeId>, d: Seq<NodeId>)
    requires
        bfs_visit(adj, s, b),
        dfs_visit(adj, s, d),
    ensures
        forall|x: NodeId| b.contains(x) <==> d.contains(x),
{
    assert forall|x: NodeId| b.contains(x) implies d.contains(x) by {
        let i = choose|i: int| 0 <= i < b.len() && b[i] == x;
        assert(reachable(adj, s, b[i].0 as nat));
        assert(NodeId(x.0 as nat as u32) == x);
    }
    assert forall|x: NodeId| d.contains(x) implies b.contains(x) by {
        let i = choose|i: int| 0 <= i < d.len() && d[i] == x;
        assert(reachable(adj, s, d[i].0 as nat));
        assert(NodeId(x.0 as nat as u32) == x);
    }
}

/// Law: the nodes to which shortest-path search finds a distance are
/// exactly the nodes that breadth-first search visits.
pub proof fn lemma_distances_match_bfs(
    adj: Seq<Seq<Edge>>,
    s: nat,
    order: Seq<NodeId>,
    dist: Seq<Option<u32>>,
)
    requires
        well_formed_adj(adj),
        bfs_visit(adj, s, order),
        distances_from(adj, s, dist),
    ensures
        forall|v: nat| v < adj.len() ==> (#[trigger] dist[v as int] is Some <==> order.contains(NodeId(v as u32))),
{
    assert forall|v: nat| v < adj.len() implies (#[trigger] dist[v as int] is Some <==> order.contains(
        NodeId(v as u32),
    )) by {
        if order.contains(NodeId(v as u32)) {
            let i = choose|i: int| 0 <= i < order.len() && order[i] == NodeId(v as u32);
            assert(reachable(adj, s, order[i].0 as nat));
            assert(order[i].0 as nat == v);
        }
    }
}

/// Some component lists both `x` and `y`.
pub open spec fn same_component(comps: Seq<Seq<NodeId>>, x: NodeId, y: NodeId) -> bool {
    exists|j: int| 0 <= j < comps.len() && comps[j].contains(x) && comps[j].contains(y)
}

/// Law: every strongly-connected component lies inside one
/// weakly-connected component.
pub proof fn lemma_strong_within_weak(adj: Seq<Seq<Edge>>, weak: Seq<Seq<NodeId>>, strong: Seq<Seq<NodeId>>)
    requires
        weak_components(adj, weak),
        strong_components(adj, strong),
    ensures
        forall|i: int, a: int, b: int|
            0 <= i < strong.len() && 0 <= a < strong[i].len() && 0 <= b < strong[i].len() ==> same_component(
                weak,
                #[trigger] strong[i][a],
                #[trigger] strong[i][b],
            ),
{
    assert forall|i: int, a: int, b: int|
        0 <= i < strong.len() && 0 <= a < strong[i].len() && 0 <= b < strong[i].len() implies same_component(
            weak,
            #[trigger] strong[i][a],
            #[trigger] strong[i][b],
        ) by {
        let x = strong[i][a];
        let y = strong[i][b];
        assert(mutual(adj, x.0 as nat, y.0 as nat));
        let p = choose|p: Seq<Edge>| #[trigger] is_walk(adj, x.0 as nat, y.0 as nat, p);
        lemma_walk_wc(adj, x.0 as nat, y.0 as nat, p);
        assert(x.0 < adj.len() && y.0 < adj.len());
        assert(listed(weak, x.0 as nat));
        assert(listed(weak, y.0 as nat));
        let (j, c) = choose|j: int, c: int| 0 <= j < weak.len() && 0 <= c < weak[j].len() && (#[trigger] weak[j][c]).0 == x.0 as nat;
        let (k, d) = choose|k: int, d: int| 0 <= k < weak.len() && 0 <= d < weak[k].len() && (#[trigger] weak[k][d]).0 == y.0 as nat;
        assert(weak[j][c] == x);
        assert(weak[k][d] == y);
        assert(weakly_connected(adj, weak[j][c].0 as nat, weak[k][d].0 as nat));
        assert(j == k);
        assert(weak[j].contains(x));
        assert(weak[j].contains(y));
    }
}

/// An injective map from `0..n` into `0..m` needs `n <= m`.
proof fn lemma_injection_bound(f: spec_fn(int) -> int, n: int, m: int)
    requires
        0 <= n,
        0 <= m,
        forall|i: int| 0 <= i < n ==> 0 <= #[trigger] f(i) < m,
        forall|i: int, j: int| 0 <= i < n && 0 <= j < n && #[trigger] f(i) == #[trigger] f(j) ==> i == j,
    ensures
        n <= m,
    decreases n,
{
    if n > 0 {
        let top = f(n - 1);
        assert(0 <= top < m);
        let g = |i: int|
            if f(i) < top {
                f(i)
            } else {
                f(i) - 1
            };
        assert forall|i: int| 0 <= i < n - 1 implies 0 <= #[trigger] g(i) < m - 1 by {
            assert(f(i) != top);
        }
        assert forall|i: int, j: int| 0 <= i < n - 1 && 0 <= j < n - 1 && #[trigger] g(i) == #[trigger] g(j) implies i
            == j by {
            assert(f(i) != top && f(j) != top);
            assert(f(i) == f(j));
        }
        lemma_injection_bound(g, n - 1, m - 1);
    }
}

/// Law: a graph has at least as many strongly-connected components as
/// weakly-connected ones.
pub proof fn lemma_strong_count_at_least_weak(
    adj: Seq<Seq<Edge>>,
    weak: Seq<Seq<NodeId>>,
    strong: Seq<Seq<NodeId>>,
)
    requires
        weak_components(adj, weak),
        strong_components(adj, strong),
    ensures
        strong.len() >= weak.len(),
{
    lemma_strong_within_weak(adj, weak, strong);
    let f = |j: int| choose|i: int| 0 <= i < strong.len() && #[trigger] strong[i].contains(weak[j][0]);
    assert forall|j: int| 0 <= j < weak.len() implies 0 <= #[trigger] f(j) < strong.len()
        && strong[f(j)].contains(weak[j][0]) by {
        assert(weak[j].len() > 0);
        assert(weak[j][0].0 < adj.len());
        assert(listed(strong, weak[j][0].0 as nat));
        let (i, a) = choose|i: int, a: int|
            0 <= i < strong.len() && 0 <= a < strong[i].len() && (#[trigger] strong[i][a]).0 == weak[j][0].0 as nat;
        assert(strong[i][a] == weak[j][0]);
        assert(strong[i].contains(weak[j][0]));
    }
    assert forall|j1: int, j2: int|
        0 <= j1 < weak.len() && 0 <= j2 < weak.len() && #[trigger] f(j1) == #[trigger] f(j2) implies j1 == j2 by {
        let i = f(j1);
        assert(strong[i].contains(weak[j1][0]));
        assert(strong[i].contains(weak[j2][0]));
        let a1 = choose|a: int| 0 <= a < strong[i].len() && strong[i][a] == weak[j1][0];
        let a2 = choose|a: int| 0 <= a < strong[i].len() && strong[i][a] == weak[j2][0];
        assert(weak[j1].len() > 0 && weak[j2].len() > 0);
        assert(same_component(weak, strong[i][a1], strong[i][a2]));
        let k = choose|k: int| 0 <= k < weak.len() && weak[k].contains(strong[i][a1]) && weak[k].contains(strong[i][a2]);
        let c1 = choose|c: int| 0 <= c < weak[k].len() && weak[k][c] == strong[i][a1];
        let c2 = choose|c: int| 0 <= c < weak[k].len() && weak[k][c] == strong[i][a2];
        assert(weak[k][c1] == weak[j1][0]);
        assert(weak[k][c2] == weak[j2][0]);
    }
    lemma_injection_bound(f, weak.len() as int, strong.len() as int);
}

/// What `answer` returns for query `q` on a graph with adjacency `adj`.
pub open spec fn answer_ok(adj: Seq<Seq<Edge>>, q: Query, r: Result<Answer, CliError>) -> bool {
    match q {
        Query::Bfs { source } => if source < adj.len() {
            r matches Ok(Answer::Bfs { order }) && bfs_visit(adj, source as nat, nodes_of(order@))
        } else {
            r == Err::<Answer, CliError>(CliError::SourceOutOfRange(source, adj.len() as usize))
        },
        Query::Dfs { source } => if source < adj.len() {
            r matches Ok(Answer::Dfs { order }) && dfs_visit(adj, source as nat, nodes_of(order@))
        } else {
            r == Err::<Answer, CliError>(CliError::SourceOutOfRange(source, adj.len() as usize))
        },
        Query::Dijkstra { source } => if source < adj.len() {
            r matches Ok(Answer::Dijkstra { distances }) && distances_from(
                adj,
                source as nat,
                distances@,
            )
        } else {
            r == Err::<Answer, CliError>(CliError::SourceOutOfRange(source, adj.len() as usize))
        },
        Query::Components => r matches Ok(Answer::Components { components }) && weak_components(
            adj,
            comps_of(components@),
        ),
        Query::Scc => r matches Ok(Answer::Scc { components }) && strong_components(
            adj,
            comps_of(components@),
        ),
        Query::Dot => r matches Ok(Answer::Dot { dot }) && dot@ == dot_text(adj),
    }
}

/// Law: the components command answers with exactly the listing that
/// `connected_components` returns, the one listing that meets
/// `weak_components`.
pub proof fn lemma_components_answer_is_the_listing(
    adj: Seq<Seq<Edge>>,
    r: Result<Answer, CliError>,
    comps: Seq<Seq<NodeId>>,
)
    requires
        answer_ok(adj, Query::Components, r),
        weak_components(adj, comps),
    ensures
        r matches Ok(Answer::Components { components }) && comps_of(components@) == comps,
{
    if let Ok(Answer::Components { components }) = r {
        lemma_weak_components_unique(adj, comps_of(components@), comps);
    }
}

/// Law: the breadth-first command answers with exactly the order that
/// `bfs` returns, the one order that meets `bfs_visit`.
pub proof fn lemma_bfs_answer_is_the_order(
    adj: Seq<Seq<Edge>>,
    source: u32,
    r: Result<Answer, CliError>,
    order: Seq<NodeId>,
)
    requires
        source < adj.len(),
        answer_ok(adj, Query::Bfs { source }, r),
        bfs_visit(adj, source as nat, order),
    ensures
        r matches Ok(Answer::Bfs { order: o }) && nodes_of(o@) == order,
{
    if let Ok(Answer::Bfs { order: o }) = r {
        lemma_bfs_visit_unique(adj, source as nat, nodes_of(o@), order);
    }
}

/// Law: the distance command answers with exactly the distances that
/// `dijkstra` returns: least walk costs are unique, so only one sequence
/// meets `distances_from`.
pub proof fn lemma_dijkstra_answer_is_the_distances(
    adj: Seq<Seq<Edge>>,
    source: u32,
    r: Result<Answer, CliError>,
    dist: Seq<Option<u32>>,
)
    requires
        source < adj.len(),
        answer_ok(adj, Query::Dijkstra { source }, r),
        distances_from(adj, source as nat, dist),
    ensures
        r matches Ok(Answer::Dijkstra { distances }) && distances@ == dist,
{
    if let Ok(Answer::Dijkstra { distances }) = r {
        let d = distances@;
        let s = source as nat;
        assert forall|i: int| 0 <= i < d.len() implies d[i] == dist[i] by {
            let v = i as nat;
            assert(d[v as int] is Some <==> reachable(adj, s, v));
            assert(dist[v as int] is Some <==> reachable(adj, s, v));
            if d[i] is Some {
                let a = d[i]->0 as nat;
                let b = dist[i]->0 as nat;
                let p = choose|p: Seq<Edge>| #[trigger] is_walk(adj, s, v, p) && walk_weight(p) == a;
                let q = choose|q: Seq<Edge>| #[trigger] is_walk(adj, s, v, q) && walk_weight(q) == b;
                assert(b <= walk_weight(p));
                assert(a <= walk_weight(q));
            }
        }
        assert(d =~= dist);
    }
}

/// No smaller node reaches and is reached by `v`: `v` is the smallest node
/// of its strongly-connected class.
pub open spec fn smallest_of_scc(adj: Seq<Seq<Edge>>, v: nat) -> bool {
    v < adj.len() && forall|u: nat| u < v ==> !#[trigger] mutual(adj, u, v)
}

/// The smallest ids of a listing's components.
pub open spec fn keys_of(comps: Seq<Seq<NodeId>>) -> Seq<nat> {
    Seq::new(comps.len(), |i: int| comp_key(comps[i]))
}

/// In a strong-component listing, component `i` holds exactly the nodes
/// mutually reachable with its smallest node, which is the smallest of its
/// class.
proof fn lemma_strong_component_members(adj: Seq<Seq<Edge>>, c: Seq<Seq<NodeId>>, i: int, v: nat)
    requires
        strong_components(adj, c),
        0 <= i < c.len(),
    ensures
        ids_of(c[i]).contains(v) <==> (v < adj.len() && mutual(adj, comp_key(c[i]), v)),
        smallest_of_scc(adj, comp_key(c[i])),
{
    let rel = |a: nat, b: nat| mutual(adj, a, b);
    assert(c[i].len() > 0);
    lemma_comp_key(c[i]);
    let a0 = choose|a: int| 0 <= a < c[i].len() && (#[trigger] c[i][a]).0 == comp_key(c[i]);
    assert(c[i][a0].0 < adj.len());
    if ids_of(c[i]).contains(v) {
        let a = choose|a: int| 0 <= a < ids_of(c[i]).len() && ids_of(c[i])[a] == v;
        assert(c[i][a].0 == v);
        assert(rel(c[i][a0].0 as nat, c[i][a].0 as nat));
    }
    if v < adj.len() && mutual(adj, comp_key(c[i]), v) {
        assert(listed(c, v));
        let (j, b) = choose|j: int, b: int| 0 <= j < c.len() && 0 <= b < c[j].len() && (#[trigger] c[j][b]).0 == v;
        assert(rel(c[i][a0].0 as nat, c[j][b].0 as nat) <==> i == j);
        assert(ids_of(c[i])[b] == v);
    }
    assert forall|u: nat| u < comp_key(c[i]) implies !#[trigger] mutual(adj, u, comp_key(c[i])) by {
        if mutual(adj, u, comp_key(c[i])) {
            assert(listed(c, u));
            let (j, b) = choose|j: int, b: int| 0 <= j < c.len() && 0 <= b < c[j].len() && (#[trigger] c[j][b]).0 == u;
            assert(rel(c[j][b].0 as nat, c[i][a0].0 as nat) <==> j == i);
            assert(comp_key(c[i]) <= c[i][b].0);
        }
    }
}

/// In a strong-component listing, the components' smallest ids are exactly
/// the smallest nodes of their classes.
proof fn lemma_strong_keys(adj: Seq<Seq<Edge>>, c: Seq<Seq<NodeId>>, v: nat)
    requires
        strong_components(adj, c),
    ensures
        keys_of(c).contains(v) <==> smallest_of_scc(adj, v),
{
    let rel = |a: nat, b: nat| mutual(adj, a, b);
    if keys_of(c).contains(v) {
        let i = choose|i: int| 0 <= i < keys_of(c).len() && keys_of(c)[i] == v;
        lemma_strong_component_members(adj, c, i, v);
    }
    if smallest_of_scc(adj, v) {
        assert(listed(c, v));
        let (i, b) = choose|i: int, b: int| 0 <= i < c.len() && 0 <= b < c[i].len() && (#[trigger] c[i][b]).0 == v;
        assert(c[i].len() > 0);
        lemma_comp_key(c[i]);
        let a0 = choose|a: int| 0 <= a < c[i].len() && (#[trigger] c[i][a]).0 == comp_key(c[i]);
        assert(rel(c[i][a0].0 as nat, c[i][b].0 as nat));
        assert(comp_key(c[i]) <= c[i][b].0);
        if comp_key(c[i]) < v {
            assert(mutual(adj, comp_key(c[i]), v));
        }
        assert(keys_of(c)[i] == v);
    }
}

/// Law: the strong-component listing of a graph is unique up to the order
/// of nodes inside each component: any two listings that meet
/// `strong_components` have as many components, and components at the same
/// position hold the same nodes.
pub proof fn lemma_strong_components_unique(adj: Seq<Seq<Edge>>, c1: Seq<Seq<NodeId>>, c2: Seq<Seq<NodeId>>)
    requires
        strong_components(adj, c1),
        strong_components(adj, c2),
    ensures
        c1.len() == c2.len(),
        forall|i: int, v: nat| 0 <= i < c1.len() ==> (#[trigger] ids_of(c1[i]).contains(v) <==> ids_of(c2[i]).contains(v)),
{
    let m1 = keys_of(c1);
    let m2 = keys_of(c2);
    assert forall|x: nat| m1.contains(x) <==> m2.contains(x) by {
        lemma_strong_keys(adj, c1, x);
        lemma_strong_keys(adj, c2, x);
    }
    assert forall|i: int, j: int| 0 <= i < j < m1.len() implies #[trigger] m1[i] < #[trigger] m1[j] by {
        assert(comp_key(c1[i]) < comp_key(c1[j]));
    }
    assert forall|i: int, j: int| 0 <= i < j < m2.len() implies #[trigger] m2[i] < #[trigger] m2[j] by {
        assert(comp_key(c2[i]) < comp_key(c2[j]));
    }
    lemma_increasing_same_elems(m1, m2);
    assert(m1.len() == c1.len() && m2.len() == c2.len());
    assert forall|i: int, v: nat| 0 <= i < c1.len() implies (#[trigger] ids_of(c1[i]).contains(v) <==> ids_of(
        c2[i],
    ).contains(v)) by {
        assert(m1[i] == m2[i]);
        lemma_strong_component_members(adj, c1, i, v);
        lemma_strong_component_members(adj, c2, i, v);
    }
}

/// Law: the strongly-connected command answers with the components that
/// `kosaraju` returns: as many, each holding the same nodes (the order of
/// nodes inside a component is the one thing left open).
pub proof fn lemma_scc_answer_is_the_listing(
    adj: Seq<Seq<Edge>>,
    r: Result<Answer, CliError>,
    comps: Seq<Seq<NodeId>>,
)
    requires
        answer_ok(adj, Query::Scc, r),
        strong_components(adj, comps),
    ensures
        r matches Ok(Answer::Scc { components }) && comps_of(components@).len() == comps.len()
            && forall|i: int, v: nat|
            0 <= i < comps.len() ==> (#[trigger] ids_of(comps_of(components@)[i]).contains(v) <==> ids_of(
                comps[i],
            ).contains(v)),
{
    if let Ok(Answer::Scc { components }) = r {
        lemma_strong_components_unique(adj, comps_of(components@), comps);
    }
}

/// Checks that `source` is a node of `g`.
pub fn check_source(g: &Graph, source: u32) -> (r: Result<(), CliError>)
    ensures
        source < g@.len() ==> r is Ok,
        source >= g@.len() ==> r == Err::<(), CliError>(
            CliError::SourceOutOfRange(source, g@.len() as usize),
        ),
{
    if source as usize >= g.node_count() {
        return Err(CliError::SourceOutOfRange(source, g.node_count()));
    }
    Ok(())
}

/// The ids of a list of nodes.
fn ids(nodes: &[NodeId]) -> (r: Vec<u32>)
    ensures
        nodes_of(r@) == nodes@,
{
    let mut r: Vec<u32> = Vec::new();
    let mut i: usize = 0;
    while i < nodes.len()
        invariant
            i <= nodes@.len(),
            nodes_of(r@) == nodes@.take(i as int),
        decreases nodes@.len() - i,
    {
        let ghost prev = r@;
        r.push(nodes[i].0);
        proof {
            assert(nodes_of(prev).len() == prev.len());
            assert(prev.len() == i);
            assert(r@ == prev.push(nodes@[i as int].0));
            assert forall|k: int| 0 <= k < i + 1 implies #[trigger] nodes_of(r@)[k] == nodes@.take(
                i + 1,
            )[k] by {
                assert(r@[k] == (if k < i { prev[k] } else { nodes@[i as int].0 }));
                if k < i {
                    assert(nodes_of(prev)[k] == nodes@.take(i as int)[k]);
                } else {
                    let x = nodes@[k];
                    assert(NodeId(x.0) == x);
                }
            }
            assert(nodes_of(r@) =~= nodes@.take(i + 1));
        }
        i = i + 1;
    }
    assert(nodes@.take(nodes@.len() as int) =~= nodes@);
    r
}

/// The component lists with node ids as plain integers.
pub fn comps_to_u32(comps: Vec<Vec<NodeId>>) -> (r: Vec<Vec<u32>>)
    ensures
        comps_of(r@) == comps_view(comps@),
{
    let mut r: Vec<Vec<u32>> = Vec::new();
    let mut i: usize = 0;
    while i < comps.len()
        invariant
            i <= comps@.len(),
            comps_of(r@) == comps_view(comps@).take(i as int),
        decreases comps@.len() - i,
    {
        let ghost prev = r@;
        let c = ids(comps[i].as_slice());
        r.push(c);
        proof {
            assert(comps_of(prev).len() == prev.len());
            assert(prev.len() == i);
            assert(r@ == prev.push(c));
            assert forall|k: int| 0 <= k < i + 1 implies #[trigger] comps_of(r@)[k] == comps_view(
                comps@,
            ).take(i + 1)[k] by {
                assert(r@[k] == (if k < i { prev[k] } else { c }));
                if k < i {
                    assert(comps_of(prev)[k] == comps_view(comps@).take(i as int)[k]);
                }
            }
            assert(comps_of(r@) =~= comps_view(comps@).take(i + 1));
        }
        i = i + 1;
    }
    assert(comps_view(comps@).take(comps@.len() as int) =~= comps_view(comps@));
    r
}

/// Builds the input's graph, or reports the first edge that names a node
/// outside it.
pub fn build_graph(input: &Input) -> (r: Result<Graph, CliError>)
    requires
        input.nodes <= u32::MAX,
    ensures
        match first_edge_error(input.nodes as nat, input.edges@) {
            Some(err) => r == Err::<Graph, CliError>(CliError::Graph(err)),
            None => r is Ok && r->Ok_0@ == lists_of(input.nodes as nat, input.edges@)
                && r->Ok_0.spec_edge_count() == input.edges@.len(),
        },
{
    match Graph::from_edges(input.nodes, input.edges.as_slice()) {
        Ok(g) => {
            assert_edge_count_consistent(&g);
            Ok(g)
        },
        Err(e) => Err(CliError::Graph(e)),
    }
}

/// Runs query `q` on `g`: checks the source node where there is one, runs
/// the algorithm, checks that component lists partition the nodes, and
/// returns the answer with plain integer ids.
pub fn answer(g: &Graph, q: Query) -> (r: Result<Answer, CliError>)
    ensures
        answer_ok(g@, q, r),
{
    match q {
        Query::Bfs { source } => {
            check_source(g, source)?;
            let order = bfs(g, NodeId(source));
            let order = ids(order.as_slice());
            Ok(Answer::Bfs { order })
        },
        Query::Dfs { source } => {
            check_source(g, source)?;
            let order = dfs(g, NodeId(source));
            let order = ids(order.as_slice());
            Ok(Answer::Dfs { order })
        },
        Query::Dijkstra { source } => {
            check_source(g, source)?;
            let distances = dijkstra(g, NodeId(source));
            Ok(Answer::Dijkstra { distances })
        },
        Query::Components => {
            let comps = connected_components(g);
            assert_components_partition(g, comps.as_slice());
            let components = comps_to_u32(comps);
            Ok(Answer::Components { components })
        },
        Query::Scc => {
            let comps = kosaraju(g);
            assert_components_partition(g, comps.as_slice());
            proof {
                let cv = comps_view(comps@);
                assert forall|i: int| 0 <= i < cv.len() implies #[trigger] cv[i] == comps@[i]@ by {}
            }
            let components = comps_to_u32(comps);
            Ok(Answer::Scc { components })
        },
        Query::Dot => {
            let dot = to_dot(g);
            Ok(Answer::Dot { dot })
        },
    }
}

} // verus!
