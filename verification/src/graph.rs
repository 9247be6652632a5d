//! Core graph types: node identifiers, weighted directed edges and the
//! adjacency-list graph.

use vstd::prelude::*;
use crate::text::{dec, push_decimal};
use crate::paths::has_edge;

verus! {

/// A node identifier, kept apart from edge weights and plain indices.
#[derive(Debug, Clone, Copy, PartialEq, Eq, Hash, PartialOrd, Ord, Structural)]
pub struct NodeId(pub u32);

impl NodeId {
    /// Builds a node identifier.
    pub fn new(id: u32) -> (r: NodeId)
        ensures
            r.0 == id,
    {
        NodeId(id)
    }

    /// The identifier as an index into the adjacency vector.
    pub fn index(self) -> (r: usize)
        ensures
            r == self.0,
    {
        self.0 as usize
    }
}

/// A directed edge `from -> to` carrying a weight.
#[derive(Debug, Clone, Copy, PartialEq, Eq, Structural)]
pub struct Edge {
    /// Source node.
    pub from: NodeId,
    /// Destination node.
    pub to: NodeId,
    /// Edge weight.
    pub weight: u32,
}

impl Edge {
    /// Builds an edge.
    pub fn new(from: NodeId, to: NodeId, weight: u32) -> (e: Edge)
        ensures
            e.from == from,
            e.to == to,
            e.weight == weight,
    {
        Edge { from, to, weight }
    }
}

/// Every edge stored in list `i` leaves node `i` and ends at a node of the
/// graph; node ids fit in `u32`.
pub open spec fn well_formed_adj(adj: Seq<Seq<Edge>>) -> bool {
    &&& adj.len() <= u32::MAX
    &&& forall|i: int, j: int|
        #![trigger adj[i][j]]
        0 <= i < adj.len() && 0 <= j < adj[i].len() ==> adj[i][j].from.0 == i && (adj[i][j].to.0
            as int) < adj.len()
}

/// Sum of the lengths of all adjacency lists.
pub open spec fn total_len(adj: Seq<Seq<Edge>>) -> nat
    decreases adj.len(),
{
    if adj.len() == 0 {
        0
    } else {
        total_len(adj.drop_last()) + adj.last().len()
    }
}

/// Adjacency-list directed graph.
#[derive(Debug, PartialEq, Eq)]
pub struct Graph {
    adj: Vec<Vec<Edge>>,
    edge_count: usize,
}

/// Errors produced by graph constructors.
#[derive(Debug, Clone, PartialEq, Eq, Structural)]
pub enum GraphError {
    /// An edge referenced a node id that the graph does not contain
    /// (the id, then the number of nodes).
    NodeOutOfRange(u32, usize),
}

/// The sentence that describes a graph error.
pub open spec fn error_message(e: GraphError) -> Seq<char> {
    match e {
        GraphError::NodeOutOfRange(id, n) => "node id "@ + dec(id as nat) + " out of range (graph has "@
            + dec(n as nat) + " nodes)"@,
    }
}

impl GraphError {
    /// The error as a sentence.
    pub fn message(&self) -> (r: String)
        ensures
            r@ == error_message(*self),
    {
        match self {
            GraphError::NodeOutOfRange(id, n) => {
                let mut r = String::from_str("node id ");
                push_decimal(&mut r, *id as u64);
                r.append(" out of range (graph has ");
                push_decimal(&mut r, *n as u64);
                r.append(" nodes)");
                r
            },
        }
    }
}

impl View for Graph {
    type V = Seq<Seq<Edge>>;

    closed spec fn view(&self) -> Seq<Seq<Edge>> {
        self.adj@.map_values(|v: Vec<Edge>| v@)
    }
}

impl Graph {
    /// The recorded number of directed edges.
    pub closed spec fn spec_edge_count(&self) -> nat {
        self.edge_count as nat
    }

    /// The graph's invariant: well-formed adjacency lists whose total length
    /// is the recorded edge count.
    #[verifier::type_invariant]
    pub closed spec fn inv(&self) -> bool {
        &&& well_formed_adj(self@)
        &&& self.edge_count == total_len(self@)
    }

    /// What the invariant says, for code outside this module.
    pub proof fn lemma_inv(&self)
        requires
            self.inv(),
        ensures
            well_formed_adj(self@),
            self.spec_edge_count() == total_len(self@),
    {
    }

    /// A graph with `n` nodes and no edges.
    pub fn with_capacity(n: usize) -> (g: Graph)
        requires
            n <= u32::MAX,
        ensures
            g@ == Seq::new(n as nat, |i: int| Seq::<Edge>::empty()),
            g.spec_edge_count() == 0,
    {
        let mut adj: Vec<Vec<Edge>> = Vec::new();
        let mut i: usize = 0;
        while i < n
            invariant
                i <= n,
                adj@.len() == i,
                forall|k: int| 0 <= k < i ==> (#[trigger] adj@[k])@ == Seq::<Edge>::empty(),
            decreases n - i,
        {
            adj.push(Vec::new());
            i = i + 1;
        }
        let ghost v = adj@.map_values(|v: Vec<Edge>| v@);
        assert(v =~= Seq::new(n as nat, |i: int| Seq::<Edge>::empty()));
        assert(total_len(v) == 0) by {
            lemma_total_len_empty(v);
        }
        Graph { adj, edge_count: 0 }
    }
}

/// The error that adding `e` to a graph of `n` nodes reports, if any: the
/// source is checked before the destination.
pub open spec fn edge_error(n: nat, e: Edge) -> Option<GraphError> {
    if e.from.0 >= n {
        Some(GraphError::NodeOutOfRange(e.from.0, n as usize))
    } else if e.to.0 >= n {
        Some(GraphError::NodeOutOfRange(e.to.0, n as usize))
    } else {
        None
    }
}

/// The adjacency lists with `e` appended to the list of its source.
pub open spec fn with_edge(adj: Seq<Seq<Edge>>, e: Edge) -> Seq<Seq<Edge>> {
    adj.update(e.from.0 as int, adj[e.from.0 as int].push(e))
}

impl Graph {
    /// Adds one directed edge, or reports the first endpoint that is not a
    /// node of the graph and leaves the graph unchanged.
    pub fn add_directed(&mut self, e: Edge) -> (r: Result<(), GraphError>)
        requires
            old(self).spec_edge_count() < usize::MAX,
        ensures
            match edge_error(old(self)@.len(), e) {
                Some(err) => r == Err::<(), GraphError>(err) && final(self)@ == old(self)@
                    && final(self).spec_edge_count() == old(self).spec_edge_count(),
                None => r is Ok && final(self)@ == with_edge(old(self)@, e)
                    && final(self).spec_edge_count() == old(self).spec_edge_count() + 1,
            },
    {
        proof {
            use_type_invariant(&*self);
        }
        let n = self.adj.len();
        if e.from.index() >= n {
            return Err(GraphError::NodeOutOfRange(e.from.0, n));
        }
        if e.to.index() >= n {
            return Err(GraphError::NodeOutOfRange(e.to.0, n));
        }
        let ghost old_view = self@;
        let mut taken = Graph { adj: Vec::new(), edge_count: 0 };
        std::mem::swap(self, &mut taken);
        let Graph { mut adj, edge_count } = taken;
        let i = e.from.index();
        adj[i].push(e);
        proof {
            assert(adj@.map_values(|v: Vec<Edge>| v@) =~= with_edge(old_view, e));
            lemma_total_len_with_edge(old_view, e);
        }
        *self = Graph { adj, edge_count: edge_count + 1 };
        Ok(())
    }
}

/// `n` empty edge lists.
fn empty_lists(n: usize) -> (adj: Vec<Vec<Edge>>)
    ensures
        adj@.len() == n,
        total_len(adj@.map_values(|v: Vec<Edge>| v@)) == 0,
        forall|k: int| 0 <= k < n ==> (#[trigger] adj@[k])@ == Seq::<Edge>::empty(),
        adj@.map_values(|v: Vec<Edge>| v@) == Seq::new(n as nat, |i: int| Seq::<Edge>::empty()),
{
    let mut adj: Vec<Vec<Edge>> = Vec::new();
    let mut i: usize = 0;
    while i < n
        invariant
            i <= n,
            adj@.len() == i,
            forall|k: int| 0 <= k < i ==> (#[trigger] adj@[k])@ == Seq::<Edge>::empty(),
        decreases n - i,
    {
        adj.push(Vec::new());
        i = i + 1;
    }
    assert(adj@.map_values(|v: Vec<Edge>| v@) =~= Seq::new(n as nat, |i: int| Seq::<Edge>::empty()));
    proof {
        lemma_total_len_empty(adj@.map_values(|v: Vec<Edge>| v@));
    }
    adj
}

impl Graph {
    /// Builds a directed graph of `n` nodes from a list of edges, or reports
    /// the first edge that names a node outside the graph.
    pub fn from_edges(n: usize, edges: &[Edge]) -> (r: Result<Graph, GraphError>)
        requires
            n <= u32::MAX,
        ensures
            match first_edge_error(n as nat, edges@) {
                Some(err) => r == Err::<Graph, GraphError>(err),
                None => r is Ok && r->Ok_0@ == lists_of(n as nat, edges@)
                    && r->Ok_0.spec_edge_count() == edges@.len(),
            },
    {
        let mut g = Self::with_capacity(n);
        proof {
            reveal(Seq::filter);
            assert(edges@.take(0) =~= Seq::<Edge>::empty());
            assert(g@ =~= lists_of(n as nat, edges@.take(0)));
        }
        let m = edges.len();
        let mut i: usize = 0;
        while i < m
            invariant
                i <= m,
                m == edges@.len(),
                first_edge_error(n as nat, edges@.take(i as int)) is None,
                g@ == lists_of(n as nat, edges@.take(i as int)),
                g.spec_edge_count() == i,
            decreases m - i,
        {
            let e = edges[i];
            proof {
                assert(edges@.take(i + 1).drop_last() =~= edges@.take(i as int));
                assert(edges@.take(i + 1) =~= edges@.take(i as int).push(e));
            }
            match g.add_directed(e) {
                Err(err) => {
                    proof {
                        lemma_first_error_prefix(n as nat, edges@, i + 1);
                    }
                    return Err(err);
                },
                Ok(()) => {},
            }
            proof {
                let pre = edges@.take(i as int);
                assert forall|v: int| 0 <= v < n implies #[trigger] g@[v] == pre.push(e).filter(
                    |x: Edge| x.from.0 == v,
                ) by {
                    pre.lemma_filter_push(e, |x: Edge| x.from.0 == v);
                }
                assert(g@ =~= lists_of(n as nat, edges@.take(i + 1)));
            }
            i = i + 1;
        }
        assert(edges@.take(m as int) =~= edges@);
        Ok(g)
    }

    /// Adds an undirected edge, stored as two directed edges (`e`, then its
    /// reversal); reports the first endpoint outside the graph instead.
    pub fn add_undirected(&mut self, e: Edge) -> (r: Result<(), GraphError>)
        requires
            old(self).spec_edge_count() + 2 <= usize::MAX,
        ensures
            match edge_error(old(self)@.len(), e) {
                Some(err) => r == Err::<(), GraphError>(err) && final(self)@ == old(self)@
                    && final(self).spec_edge_count() == old(self).spec_edge_count(),
                None => r is Ok && final(self)@ == with_edge(with_edge(old(self)@, e), reversed(e))
                    && final(self).spec_edge_count() == old(self).spec_edge_count() + 2,
            },
    {
        self.add_directed(e)?;
        self.add_directed(Edge::new(e.to, e.from, e.weight))
    }

    /// Number of nodes.
    pub fn node_count(&self) -> (r: usize)
        ensures
            r == self@.len(),
    {
        self.adj.len()
    }

    /// Number of directed edges; an undirected edge counts as two.
    pub fn edge_count(&self) -> (r: usize)
        ensures
            r == self.spec_edge_count(),
    {
        self.edge_count
    }

    /// The edges leaving node `n`, in the order in which they were added.
    pub fn neighbors(&self, n: NodeId) -> (r: &[Edge])
        requires
            n.0 < self@.len(),
        ensures
            r@ == self@[n.0 as int],
    {
        self.adj[n.index()].as_slice()
    }

    /// All node ids, in increasing order.
    pub fn nodes(&self) -> (r: Vec<NodeId>)
        ensures
            r@ == Seq::new(self@.len(), |i: int| NodeId(i as u32)),
    {
        proof {
            use_type_invariant(self);
        }
        let n = self.adj.len();
        let mut r: Vec<NodeId> = Vec::new();
        let mut i: usize = 0;
        while i < n
            invariant
                i <= n,
                n == self@.len(),
                n <= u32::MAX,
                r@ == Seq::new(i as nat, |k: int| NodeId(k as u32)),
            decreases n - i,
        {
            r.push(NodeId(i as u32));
            i = i + 1;
            assert(r@ =~= Seq::new(i as nat, |k: int| NodeId(k as u32)));
        }
        r
    }

    /// The transposed graph: every edge `u -> v` becomes `v -> u` with the
    /// same weight. List `v` of the result holds the reversals of the edges
    /// that end at `v`, in the order in which the edges are stored.
    pub fn transpose(&self) -> (t: Graph)
        ensures
            t@ == transposed(self@),
            t.spec_edge_count() == self.spec_edge_count(),
    {
        proof {
            use_type_invariant(self);
        }
        let n = self.adj.len();
        let mut adj = empty_lists(n);
        let mut count: usize = 0;
        let ghost g = self@;
        proof {
            reveal(Seq::filter);
            assert(g.take(0) =~= Seq::<Seq<Edge>>::empty());
            assert(all_edges(g.take(0)) =~= Seq::<Edge>::empty());
            assert forall|v: int| 0 <= v < n implies (#[trigger] adj@[v])@ == all_edges(
                g.take(0),
            ).filter(|e: Edge| e.to.0 == v).map_values(|e: Edge| reversed(e)) by {
                assert(all_edges(g.take(0)).filter(|e: Edge| e.to.0 == v).map_values(
                    |e: Edge| reversed(e),
                ) =~= Seq::<Edge>::empty());
            }
        }
        let mut src: usize = 0;
        while src < n
            invariant
                src <= n,
                n == g.len(),
                g == self@,
                well_formed_adj(g),
                self.spec_edge_count() == total_len(g),
                count == total_len(g.take(src as int)),
                adj@.len() == n,
                total_len(adj@.map_values(|v: Vec<Edge>| v@)) == count,
                forall|v: int|
                    0 <= v < n ==> (#[trigger] adj@[v])@ == all_edges(g.take(src as int)).filter(
                        |e: Edge| e.to.0 == v,
                    ).map_values(|e: Edge| reversed(e)),
                forall|v: int, j: int|
                    0 <= v < n && 0 <= j < adj@[v]@.len() ==> #[trigger] adj@[v]@[j].from.0 == v
                        && (adj@[v]@[j].to.0 as int) < n,
            decreases n - src,
        {
            let list = &self.adj[src];
            let m = list.len();
            let ghost before = all_edges(g.take(src as int));
            proof {
                lemma_total_len_prefix(g, src as int);
                lemma_total_len_prefix(g, src + 1);
                assert(g.take(src + 1).drop_last() =~= g.take(src as int));
                assert(g.take(src + 1).last() == g[src as int]);
            }
            let mut j: usize = 0;
            while j < m
                invariant
                    j <= m,
                    src < n,
                    n == g.len(),
                    m == g[src as int].len(),
                    list@ == g[src as int],
                    well_formed_adj(g),
                    count == total_len(g.take(src as int)) + j,
                    total_len(g.take(src as int)) + m <= total_len(g),
                    self.spec_edge_count() == total_len(g),
                    adj@.len() == n,
                    total_len(adj@.map_values(|v: Vec<Edge>| v@)) == count,
                    forall|v: int|
                        0 <= v < n ==> (#[trigger] adj@[v])@ == (before + g[src as int].take(
                            j as int,
                        )).filter(|e: Edge| e.to.0 == v).map_values(|e: Edge| reversed(e)),
                    forall|v: int, k: int|
                        0 <= v < n && 0 <= k < adj@[v]@.len() ==> #[trigger] adj@[v]@[k].from.0
                            == v && (adj@[v]@[k].to.0 as int) < n,
                decreases m - j,
            {
                let e = list[j];
                assert(g[src as int][j as int] == e);
                let t = e.to.index();
                let ghost old_adj = adj@.map_values(|v: Vec<Edge>| v@);
                let ghost old_vecs = adj@;
                adj[t].push(Edge::new(e.to, e.from, e.weight));
                proof {
                    let pre = before + g[src as int].take(j as int);
                    assert(before + g[src as int].take(j + 1) =~= pre.push(e));
                    assert forall|v: int| 0 <= v < n implies (#[trigger] adj@[v])@ == (before
                        + g[src as int].take(j + 1)).filter(|x: Edge| x.to.0 == v).map_values(
                        |x: Edge| reversed(x),
                    ) by {
                        pre.lemma_filter_push(e, |x: Edge| x.to.0 == v);
                        let f = pre.filter(|x: Edge| x.to.0 == v);
                        assert(f.push(e).map_values(|x: Edge| reversed(x)) =~= f.map_values(
                            |x: Edge| reversed(x),
                        ).push(reversed(e)));
                    }
                    assert(adj@.map_values(|v: Vec<Edge>| v@) =~= old_adj.update(
                        t as int,
                        old_adj[t as int].push(reversed(e)),
                    ));
                    lemma_total_len_push(old_adj, t as int, reversed(e));
                    assert forall|v: int, k: int|
                        0 <= v < n && 0 <= k < adj@[v]@.len() implies #[trigger] adj@[v]@[k].from.0
                            == v && (adj@[v]@[k].to.0 as int) < n by {
                        if v == t && k == adj@[v]@.len() - 1 {
                            assert(adj@[v]@[k] == reversed(e));
                        } else {
                            assert(adj@[v]@[k] == old_vecs[v]@[k]);
                            assert(old_vecs[v]@[k].from.0 == v);
                        }
                    }
                }
                count = count + 1;
                j = j + 1;
            }
            proof {
                assert(g[src as int].take(m as int) =~= g[src as int]);
                assert(all_edges(g.take(src + 1)) =~= before + g[src as int]);
            }
            src = src + 1;
        }
        proof {
            assert(g.take(n as int) =~= g);
            assert(adj@.map_values(|v: Vec<Edge>| v@) =~= transposed(g));
        }
        Graph { adj, edge_count: count }
    }
}

/// The sum of the neighbor-list lengths equals the recorded edge count.
pub fn assert_edge_count_consistent(g: &Graph)
    ensures
        total_len(g@) == g.spec_edge_count(),
{
    proof {
        use_type_invariant(g);
    }
    let n = g.node_count();
    let mut total: usize = 0;
    let mut i: usize = 0;
    while i < n
        invariant
            i <= n,
            n == g@.len(),
            total == total_len(g@.take(i as int)),
            total_len(g@) == g.spec_edge_count(),
            g.spec_edge_count() <= usize::MAX,
            n <= u32::MAX,
        decreases n - i,
    {
        proof {
            lemma_total_len_prefix(g@, i as int);
            lemma_total_len_prefix(g@, i + 1);
        }
        total = total + g.neighbors(NodeId(i as u32)).len();
        i = i + 1;
    }
    proof {
        assert(g@.take(n as int) =~= g@);
    }
    assert(total == g.spec_edge_count());
}

impl Clone for Graph {
    fn clone(&self) -> (r: Graph)
        ensures
            r@ == self@,
            r.spec_edge_count() == self.spec_edge_count(),
    {
        proof {
            use_type_invariant(self);
        }
        let mut adj: Vec<Vec<Edge>> = Vec::new();
        let n = self.adj.len();
        let mut i: usize = 0;
        while i < n
            invariant
                i <= n,
                n == self.adj@.len(),
                adj@.len() == i,
                forall|k: int| 0 <= k < i ==> (#[trigger] adj@[k])@ == self.adj@[k]@,
            decreases n - i,
        {
            let src = &self.adj[i];
            let mut list: Vec<Edge> = Vec::new();
            let m = src.len();
            let mut j: usize = 0;
            while j < m
                invariant
                    j <= m,
                    m == src@.len(),
                    list@ == src@.subrange(0, j as int),
                decreases m - j,
            {
                list.push(src[j]);
                j = j + 1;
            }
            assert(list@ =~= src@);
            adj.push(list);
            i = i + 1;
        }
        assert(adj@.map_values(|v: Vec<Edge>| v@) =~= self@);
        Graph { adj, edge_count: self.edge_count }
    }
}

/// Appending one edge to one list adds one to the total length.
pub proof fn lemma_total_len_push(adj: Seq<Seq<Edge>>, i: int, e: Edge)
    requires
        0 <= i < adj.len(),
    ensures
        total_len(adj.update(i, adj[i].push(e))) == total_len(adj) + 1,
    decreases adj.len(),
{
    let adj2 = adj.update(i, adj[i].push(e));
    if i == adj.len() - 1 {
        assert(adj2.drop_last() =~= adj.drop_last());
    } else {
        lemma_total_len_push(adj.drop_last(), i, e);
        assert(adj2.drop_last() =~= adj.drop_last().update(i, adj.drop_last()[i].push(e)));
    }
}

/// Appending one edge adds one to the total length.
pub proof fn lemma_total_len_with_edge(adj: Seq<Seq<Edge>>, e: Edge)
    requires
        0 <= e.from.0 < adj.len(),
    ensures
        total_len(with_edge(adj, e)) == total_len(adj) + 1,
{
    lemma_total_len_push(adj, e.from.0 as int, e);
}

/// The total length of a prefix of the lists is at most the total length.
pub proof fn lemma_total_len_prefix(adj: Seq<Seq<Edge>>, k: int)
    requires
        0 <= k <= adj.len(),
    ensures
        total_len(adj.take(k)) <= total_len(adj),
        k < adj.len() ==> total_len(adj.take(k + 1)) == total_len(adj.take(k)) + adj[k].len(),
    decreases adj.len(),
{
    if k < adj.len() {
        assert(adj.take(k + 1).drop_last() =~= adj.take(k));
        if k + 1 < adj.len() {
            lemma_total_len_prefix(adj.drop_last(), k);
            assert(adj.drop_last().take(k) =~= adj.take(k));
        } else {
            assert(adj.take(k + 1) =~= adj);
        }
    } else {
        assert(adj.take(k) =~= adj);
    }
}

/// All edges of the graph, list after list.
pub open spec fn all_edges(adj: Seq<Seq<Edge>>) -> Seq<Edge>
    decreases adj.len(),
{
    if adj.len() == 0 {
        Seq::empty()
    } else {
        all_edges(adj.drop_last()) + adj.last()
    }
}

/// Once a prefix of the edges holds an error, the first error of the whole
/// list is that prefix's first error.
pub proof fn lemma_first_error_prefix(n: nat, edges: Seq<Edge>, k: int)
    requires
        0 <= k <= edges.len(),
        first_edge_error(n, edges.take(k)) is Some,
    ensures
        first_edge_error(n, edges) == first_edge_error(n, edges.take(k)),
    decreases edges.len(),
{
    if edges.len() == k {
        assert(edges.take(k) =~= edges);
    } else {
        assert(edges.drop_last().take(k) =~= edges.take(k));
        lemma_first_error_prefix(n, edges.drop_last(), k);
    }
}

/// An edge is among all edges exactly when some list holds it.
pub proof fn lemma_all_edges_contains(adj: Seq<Seq<Edge>>, e: Edge)
    ensures
        all_edges(adj).contains(e) <==> exists|i: int, j: int|
            0 <= i < adj.len() && 0 <= j < adj[i].len() && #[trigger] adj[i][j] == e,
    decreases adj.len(),
{
    if adj.len() > 0 {
        let pre = adj.drop_last();
        let last = adj.last();
        lemma_all_edges_contains(pre, e);
        let all = all_edges(adj);
        assert(all =~= all_edges(pre) + last);
        if all.contains(e) {
            let k = choose|k: int| 0 <= k < all.len() && all[k] == e;
            if k < all_edges(pre).len() {
                assert(all_edges(pre)[k] == e);
                assert(all_edges(pre).contains(e));
                let (i, j) = choose|i: int, j: int|
                    0 <= i < pre.len() && 0 <= j < pre[i].len() && #[trigger] pre[i][j] == e;
                assert(adj[i][j] == e);
            } else {
                let j = k - all_edges(pre).len();
                assert(adj[adj.len() - 1][j] == e);
            }
        }
        if exists|i: int, j: int| 0 <= i < adj.len() && 0 <= j < adj[i].len() && #[trigger] adj[i][j] == e {
            let (i, j) = choose|i: int, j: int|
                0 <= i < adj.len() && 0 <= j < adj[i].len() && #[trigger] adj[i][j] == e;
            if i < adj.len() - 1 {
                assert(pre[i][j] == e);
                let k = choose|k: int| 0 <= k < all_edges(pre).len() && all_edges(pre)[k] == e;
                assert(all[k] == e);
            } else {
                assert(all[all_edges(pre).len() + j] == e);
            }
        }
    }
}

/// Every edge of the transposed lists reverses an edge of the graph that
/// ends where the transposed edge starts.
pub proof fn lemma_transposed_edge(adj: Seq<Seq<Edge>>, x: int, j: int)
    requires
        well_formed_adj(adj),
        0 <= x < adj.len(),
        0 <= j < transposed(adj)[x].len(),
    ensures
        transposed(adj)[x][j].from.0 == x,
        exists|i: int, k: int|
            0 <= i < adj.len() && 0 <= k < adj[i].len() && #[trigger] adj[i][k] == reversed(
                transposed(adj)[x][j],
            ),
{
    let pred = |e: Edge| e.to.0 == x;
    let filt = all_edges(adj).filter(pred);
    let f = transposed(adj)[x][j];
    assert(f == reversed(filt[j]));
    assert(pred(filt[j])) by {
        all_edges(adj).lemma_filter_pred(pred, j);
    }
    assert(filt.contains(filt[j]));
    all_edges(adj).lemma_filter_contains_rev(pred, filt[j]);
    lemma_all_edges_contains(adj, filt[j]);
    assert(reversed(f) == filt[j]);
}

/// The reversal of every graph edge is in the transposed list of its end.
pub proof fn lemma_edge_in_transposed(adj: Seq<Seq<Edge>>, i: int, k: int)
    requires
        well_formed_adj(adj),
        0 <= i < adj.len(),
        0 <= k < adj[i].len(),
    ensures
        transposed(adj)[adj[i][k].to.0 as int].contains(reversed(adj[i][k])),
{
    let e = adj[i][k];
    let x = e.to.0 as int;
    let pred = |f: Edge| f.to.0 == x;
    lemma_all_edges_contains(adj, e);
    assert(all_edges(adj).contains(e));
    let q = choose|q: int| 0 <= q < all_edges(adj).len() && all_edges(adj)[q] == e;
    all_edges(adj).lemma_filter_contains(pred, q);
    let filt = all_edges(adj).filter(pred);
    let r = choose|r: int| 0 <= r < filt.len() && filt[r] == e;
    assert(transposed(adj)[x][r] == reversed(e));
}

/// The number of all edges is the total length.
pub proof fn lemma_all_edges_len(adj: Seq<Seq<Edge>>)
    ensures
        all_edges(adj).len() == total_len(adj),
    decreases adj.len(),
{
    if adj.len() > 0 {
        lemma_all_edges_len(adj.drop_last());
    }
}

/// An edge with its endpoints swapped.
pub open spec fn reversed(e: Edge) -> Edge {
    Edge { from: e.to, to: e.from, weight: e.weight }
}

/// Law: transposing reverses every edge: `e` is an edge of a graph exactly
/// when its reversal is an edge of the transposed graph.
pub proof fn lemma_transpose_reverses_edges(adj: Seq<Seq<Edge>>, e: Edge)
    requires
        well_formed_adj(adj),
    ensures
        has_edge(adj, e) <==> has_edge(transposed(adj), reversed(e)),
{
    if has_edge(adj, e) {
        let k = choose|k: int| 0 <= k < adj[e.from.0 as int].len() && adj[e.from.0 as int][k] == e;
        assert(adj[e.from.0 as int][k] == e);
        lemma_edge_in_transposed(adj, e.from.0 as int, k);
        assert(e.to.0 < adj.len());
    }
    if has_edge(transposed(adj), reversed(e)) {
        let t = transposed(adj);
        let x = e.to.0 as int;
        let j = choose|j: int| 0 <= j < t[x].len() && t[x][j] == reversed(e);
        assert(t[x][j] == reversed(e));
        lemma_transposed_edge(adj, x, j);
        let (i, k) = choose|i: int, k: int|
            0 <= i < adj.len() && 0 <= k < adj[i].len() && #[trigger] adj[i][k] == reversed(t[x][j]);
        assert(adj[i][k] == e);
        assert(adj[e.from.0 as int][k] == e);
    }
}

/// The lists of the transposed graph: list `v` holds, in the order in which
/// they occur, the reversal of every edge that ends at `v`.
pub open spec fn transposed(adj: Seq<Seq<Edge>>) -> Seq<Seq<Edge>> {
    Seq::new(
        adj.len(),
        |v: int| all_edges(adj).filter(|e: Edge| e.to.0 == v).map_values(|e: Edge| reversed(e)),
    )
}

/// The lists that a graph with `n` nodes has after the edges of `edges`
/// were added in order: list `v` holds the edges leaving `v`, in order.
pub open spec fn lists_of(n: nat, edges: Seq<Edge>) -> Seq<Seq<Edge>> {
    Seq::new(n, |v: int| edges.filter(|e: Edge| e.from.0 == v))
}

/// The error of the first edge that names a node outside a graph of `n`
/// nodes, if there is one.
pub open spec fn first_edge_error(n: nat, edges: Seq<Edge>) -> Option<GraphError>
    decreases edges.len(),
{
    if edges.len() == 0 {
        None
    } else {
        match first_edge_error(n, edges.drop_last()) {
            Some(err) => Some(err),
            None => edge_error(n, edges.last()),
        }
    }
}

/// A sequence of empty lists has total length zero.
pub proof fn lemma_total_len_empty(adj: Seq<Seq<Edge>>)
    requires
        forall|i: int| 0 <= i < adj.len() ==> (#[trigger] adj[i]).len() == 0,
    ensures
        total_len(adj) == 0,
    decreases adj.len(),
{
    if adj.len() > 0 {
        lemma_total_len_empty(adj.drop_last());
    }
}

} // verus!
