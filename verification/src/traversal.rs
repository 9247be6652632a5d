//! Graph traversal: breadth-first search, depth-first search and
//! single-source shortest paths.

use vstd::prelude::*;
use std::collections::VecDeque;
use crate::graph::{Edge, Graph, NodeId, well_formed_adj};
use crate::paths::{
    count_false, filled, has_edge, is_walk, lemma_closed_reach, lemma_count_false_set, lemma_no_farther,
    lemma_shortest_le, lemma_walk_empty, lemma_walk_push, lemma_walk_drop_last, level, lemma_level_is_shortest, lemma_count_false_all, lemma_level_reachable, lemma_within_mono, lemma_within_pred, lemma_within_push,
    no_farther, node, reachable, shortest, walk_within, sat_add, walk_weight, walk_cost, no_cheaper_walk,
};

verus! {

/// Pair `a` comes before pair `b` in lexicographic order.
pub open spec fn key_before(a: (int, int), b: (int, int)) -> bool {
    a.0 < b.0 || (a.0 == b.0 && a.1 < b.1)
}

/// Node `order[j]` is discovered through edge `key.1` of node `order[key.0]`:
/// that node is listed before it, no node listed before that one has an edge
/// to it, and no earlier edge of that node leads to it.
pub open spec fn discovery(adj: Seq<Seq<Edge>>, order: Seq<NodeId>, key: (int, int), j: int) -> bool {
    let i = key.0;
    let k = key.1;
    &&& 0 <= i < j
    &&& 0 <= k < adj[order[i].0 as int].len()
    &&& adj[order[i].0 as int][k].to == order[j]
    &&& forall|i2: int, k2: int|
        0 <= i2 < i && 0 <= k2 < adj[order[i2].0 as int].len() ==> #[trigger] adj[order[i2].0 as int][k2].to
            != order[j]
    &&& forall|k2: int| 0 <= k2 < k ==> #[trigger] adj[order[i].0 as int][k2].to != order[j]
}

/// `par` tells how each node of `order` after the first was discovered, and
/// the nodes are listed in the order of their discoveries: first by the
/// position of the node they were discovered from, then by edge.
pub open spec fn discovered_in_order(adj: Seq<Seq<Edge>>, order: Seq<NodeId>, par: Seq<(int, int)>) -> bool {
    &&& par.len() == order.len()
    &&& forall|j: int| 0 < j < order.len() ==> #[trigger] discovery(adj, order, par[j], j)
    &&& forall|j1: int, j2: int| 0 < j1 < j2 < order.len() ==> key_before(#[trigger] par[j1], #[trigger] par[j2])
}

/// A discovery stays one when the order grows at the end.
proof fn lemma_discovery_prefix(adj: Seq<Seq<Edge>>, w: Seq<NodeId>, w2: Seq<NodeId>, key: (int, int), j: int)
    requires
        discovery(adj, w, key, j),
        0 <= j < w.len() <= w2.len(),
        forall|x: int| 0 <= x < w.len() ==> w2[x] == w[x],
    ensures
        discovery(adj, w2, key, j),
{
    let i = key.0;
    let k = key.1;
    assert(w2[i] == w[i] && w2[j] == w[j]);
    assert forall|i2: int, k2: int|
        0 <= i2 < i && 0 <= k2 < adj[w2[i2].0 as int].len() implies #[trigger] adj[w2[i2].0 as int][k2].to != w2[j] by {
        assert(w2[i2] == w[i2]);
    }
}

/// Breadth-first search from `source`. The visit order starts at `source`,
/// holds every node reachable from it exactly once and nothing else, never
/// lists a node before one that is nearer to `source`, and lists the nodes
/// in the order of their discovery: by the node they are first reached
/// from, then by that node's edge.
#[verifier::rlimit(60)]
pub fn bfs(g: &Graph, source: NodeId) -> (order: Vec<NodeId>)
    requires
        source.0 < g@.len(),
    ensures
        order@.len() > 0,
        order@[0] == source,
        order@.no_duplicates(),
        forall|i: int| 0 <= i < order@.len() ==> reachable(g@, source.0 as nat, #[trigger] order@[i].0 as nat),
        forall|v: nat| #[trigger] reachable(g@, source.0 as nat, v) ==> order@.contains(NodeId(v as u32)),
        forall|i: int, j: int|
            0 <= i <= j < order@.len() ==> no_farther(
                g@,
                source.0 as nat,
                #[trigger] order@[i].0 as nat,
                #[trigger] order@[j].0 as nat,
            ),
        exists|par: Seq<(int, int)>| #[trigger] discovered_in_order(g@, order@, par),
{
    proof {
        use_type_invariant(g);
        g.lemma_inv();
    }
    let ghost adj = g@;
    let ghost s = source.0 as nat;
    let n = g.node_count();
    let mut visited = filled(false, n);
    let mut order: Vec<NodeId> = Vec::new();
    let mut queue: VecDeque<NodeId> = VecDeque::new();
    let ghost mut par: Seq<(int, int)> = seq![(0int, 0int)];
    let ghost mut dist: Seq<nat> = Seq::new(n as nat, |i: int| 0nat);
    let ghost mut done: Seq<bool> = Seq::new(n as nat, |i: int| false);
    visited.set(source.index(), true);
    queue.push_back(source);
    proof {
        lemma_walk_empty(adj, s);
        lemma_count_false_set(Seq::new(n as nat, |i: int| false), s as int);
        assert(order@ + queue@ =~= seq![source]);
        assert(source == NodeId(s as u32));
        assert((order@ + queue@)[0] == source);
        assert forall|v: nat| v < n && #[trigger] visited@[v as int] implies (order@ + queue@).contains(
            NodeId(v as u32),
        ) by {
            assert(v == s);
        }
        assert forall|v: nat| v < n && walk_within(adj, s, v, 0) implies #[trigger] visited@[v as int] by {
            let p = choose|p: Seq<Edge>| #[trigger] is_walk(adj, s, v, p) && p.len() <= 0;
        }
    }
    loop
        invariant
            adj == g@,
            n == adj.len(),
            well_formed_adj(adj),
            s == source.0,
            s < n,
            visited@.len() == n,
            dist.len() == n,
            done.len() == n,
            (order@ + queue@).len() > 0,
            (order@ + queue@)[0] == source,
            (order@ + queue@).no_duplicates(),
            forall|i: int| 0 <= i < (order@ + queue@).len() ==> (#[trigger] (order@ + queue@)[i]).0 < n
                && visited@[(order@ + queue@)[i].0 as int],
            forall|v: nat| v < n && #[trigger] visited@[v as int] ==> (order@ + queue@).contains(
                NodeId(v as u32),
            ),
            forall|i: int| 0 <= i < order@.len() ==> done[(#[trigger] order@[i]).0 as int],
            forall|i: int| 0 <= i < queue@.len() ==> !done[(#[trigger] queue@[i]).0 as int],
            forall|v: nat| v < n && #[trigger] done[v as int] ==> visited@[v as int],
            forall|v: nat| v < n && #[trigger] visited@[v as int] ==> shortest(adj, s, v, dist[v as int]),
            forall|v: int, j: int|
                0 <= v < n && 0 <= j < adj[v].len() && done[v] ==> visited@[(#[trigger] adj[v][j]).to.0 as int],
            forall|i: int, j: int|
                0 <= i <= j < (order@ + queue@).len() ==> dist[(#[trigger] (order@ + queue@)[i]).0 as int]
                    <= dist[(#[trigger] (order@ + queue@)[j]).0 as int],
            queue@.len() > 0 ==> forall|v: nat|
                v < n && #[trigger] visited@[v as int] && !done[v as int] ==> dist[queue@[0].0 as int]
                    <= dist[v as int] <= dist[queue@[0].0 as int] + 1,
            queue@.len() > 0 ==> forall|v: nat|
                v < n && #[trigger] done[v as int] ==> dist[v as int] <= dist[queue@[0].0 as int],
            queue@.len() > 0 ==> forall|v: nat|
                v < n && #[trigger] walk_within(adj, s, v, dist[queue@[0].0 as int]) ==> visited@[v as int],
            discovered_in_order(adj, order@ + queue@, par),
            forall|q: int| 0 < q < par.len() ==> (#[trigger] par[q]).0 < order@.len(),
        ensures
            queue@.len() == 0,
        decreases count_false(visited@) + queue@.len(),
    {
        let ghost w_before = order@ + queue@;
        let ghost measure_before = count_false(visited@) + queue@.len();
        let u = match queue.pop_front() {
            None => break,
            Some(u) => u,
        };
        let ghost d = dist[u.0 as int];
        proof {
            assert(w_before[order@.len() as int] == u);
            assert(queue@ =~= w_before.subrange(order@.len() as int + 1, w_before.len() as int));
        }
        order.push(u);
        proof {
            assert(order@ + queue@ =~= w_before);
            let old_done = done;
            done = done.update(u.0 as int, true);
            assert forall|i: int| 0 <= i < order@.len() implies done[(#[trigger] order@[i]).0 as int] by {
                if i < order@.len() - 1 {
                    assert(w_before[i] == order@[i]);
                    assert(old_done[order@[i].0 as int]);
                }
            }
            assert forall|i: int| 0 <= i < queue@.len() implies !done[(#[trigger] queue@[i]).0 as int] by {
                assert(queue@[i] == w_before[order@.len() + i]);
                assert(w_before[order@.len() - 1] == u);
            }
        }
        let nb = g.neighbors(u);
        let m = nb.len();
        let mut j: usize = 0;
        while j < m
            invariant
                adj == g@,
                n == adj.len(),
                well_formed_adj(adj),
                s == source.0,
                s < n,
                u.0 < n,
                nb@ == adj[u.0 as int],
                m == nb@.len(),
                j <= m,
                d == dist[u.0 as int],
                done[u.0 as int],
                visited@.len() == n,
                dist.len() == n,
                done.len() == n,
                count_false(visited@) + queue@.len() + 1 == measure_before,
                (order@ + queue@).len() > 0,
                (order@ + queue@)[0] == source,
                (order@ + queue@).no_duplicates(),
                forall|i: int| 0 <= i < (order@ + queue@).len() ==> (#[trigger] (order@ + queue@)[i]).0 < n
                    && visited@[(order@ + queue@)[i].0 as int],
                forall|v: nat| v < n && #[trigger] visited@[v as int] ==> (order@ + queue@).contains(
                    NodeId(v as u32),
                ),
                forall|i: int| 0 <= i < order@.len() ==> done[(#[trigger] order@[i]).0 as int],
                forall|i: int| 0 <= i < queue@.len() ==> !done[(#[trigger] queue@[i]).0 as int],
                forall|v: nat| v < n && #[trigger] done[v as int] ==> visited@[v as int],
                forall|v: nat| v < n && #[trigger] visited@[v as int] ==> shortest(adj, s, v, dist[v as int]),
                forall|v: int, k: int|
                    0 <= v < n && 0 <= k < adj[v].len() && done[v] && v != u.0 ==> visited@[(#[trigger] adj[v][k]).to.0 as int],
                forall|k: int| 0 <= k < j ==> visited@[(#[trigger] adj[u.0 as int][k]).to.0 as int],
                forall|i: int, k: int|
                    0 <= i <= k < (order@ + queue@).len() ==> dist[(#[trigger] (order@ + queue@)[i]).0 as int]
                        <= dist[(#[trigger] (order@ + queue@)[k]).0 as int],
                forall|v: nat|
                    v < n && #[trigger] visited@[v as int] && !done[v as int] ==> d <= dist[v as int] <= d + 1,
                forall|v: nat| v < n && #[trigger] done[v as int] ==> dist[v as int] <= d,
                forall|v: nat| v < n && #[trigger] walk_within(adj, s, v, d) ==> visited@[v as int],
                discovered_in_order(adj, order@ + queue@, par),
                order@.len() > 0,
                order@[order@.len() - 1] == u,
                forall|q: int| 0 < q < par.len() ==> key_before(#[trigger] par[q], (order@.len() - 1, j as int)),
            decreases m - j,
        {
            let e = nb[j];
            let t = e.to.index();
            proof {
                assert(adj[u.0 as int][j as int] == e);
                assert(has_edge(adj, e)) by {
                    assert(adj[e.from.0 as int][j as int] == e);
                }
            }
            if !visited[t] {
                let ghost w_old = order@ + queue@;
                proof {
                    lemma_count_false_set(visited@, t as int);
                    // the new node is exactly one edge farther than `u`
                    lemma_within_push(adj, s, u.0 as nat, d, e);
                    if d + 1 > 0 && walk_within(adj, s, t as nat, d) {
                        let pe = lemma_within_pred(adj, s, t as nat, d);
                        let x = pe.from.0 as nat;
                        lemma_within_mono(adj, s, x, (d - 1) as nat, d);
                        assert(visited@[x as int]);
                        lemma_shortest_le(adj, s, x, dist[x as int], (d - 1) as nat);
                        assert(done[x as int]);
                        let k = choose|k: int| 0 <= k < adj[x as int].len() && adj[x as int][k] == pe;
                        assert(adj[x as int][k] == pe);
                        assert(false);
                    }
                    assert(!w_old.contains(NodeId(t as u32))) by {
                        if w_old.contains(NodeId(t as u32)) {
                            let i = choose|i: int| 0 <= i < w_old.len() && w_old[i] == NodeId(t as u32);
                            assert(visited@[w_old[i].0 as int]);
                        }
                    }
                    let pu = order@.len() - 1;
                    assert(w_old[pu] == u);
                    assert forall|i2: int, k2: int|
                        0 <= i2 < pu && 0 <= k2 < adj[w_old[i2].0 as int].len() implies #[trigger] adj[w_old[i2].0 as int][k2].to != e.to by {
                        assert(w_old[i2] == order@[i2]);
                        assert(done[order@[i2].0 as int]);
                        assert(w_old[i2] != w_old[pu]);
                        assert(visited@[adj[w_old[i2].0 as int][k2].to.0 as int]);
                    }
                    assert forall|k2: int| 0 <= k2 < j implies #[trigger] adj[w_old[pu].0 as int][k2].to != e.to by {
                        assert(visited@[adj[u.0 as int][k2].to.0 as int]);
                    }
                }
                visited.set(t, true);
                queue.push_back(e.to);
                proof {
                    dist = dist.update(t as int, d + 1);
                    let w_new = order@ + queue@;
                    assert(w_new =~= w_old.push(e.to));
                    let pu = order@.len() - 1;
                    let par_old = par;
                    par = par.push((pu as int, j as int));
                    let jn = w_old.len() as int;
                    assert forall|x: int| 0 <= x < w_old.len() implies w_new[x] == w_old[x] by {}
                    assert forall|q: int| 0 < q < w_new.len() implies #[trigger] discovery(adj, w_new, par[q], q) by {
                        if q < jn {
                            assert(par[q] == par_old[q]);
                            assert(discovery(adj, w_old, par_old[q], q));
                            lemma_discovery_prefix(adj, w_old, w_new, par_old[q], q);
                        } else {
                            assert(par[q] == (pu as int, j as int));
                            assert(w_new[pu] == u);
                            assert(w_new[jn] == e.to);
                            assert(adj[u.0 as int][j as int] == e);
                            assert forall|i2: int, k2: int|
                                0 <= i2 < pu && 0 <= k2 < adj[w_new[i2].0 as int].len() implies #[trigger] adj[w_new[i2].0 as int][k2].to != w_new[q] by {
                                assert(w_new[i2] == w_old[i2]);
                                assert(adj[w_old[i2].0 as int][k2].to != e.to);
                            }
                            assert forall|k2: int| 0 <= k2 < j implies #[trigger] adj[w_new[pu].0 as int][k2].to != w_new[q] by {
                                assert(adj[w_old[pu].0 as int][k2].to != e.to);
                            }
                        }
                    }
                    assert forall|j1: int, j2: int| 0 < j1 < j2 < w_new.len() implies key_before(#[trigger] par[j1], #[trigger] par[j2]) by {
                        if j2 < jn {
                            assert(par[j1] == par_old[j1] && par[j2] == par_old[j2]);
                        } else {
                            assert(par[j1] == par_old[j1]);
                            assert(key_before(par_old[j1], (pu as int, j as int)));
                        }
                    }
                    assert(discovered_in_order(adj, w_new, par));
                    assert forall|q: int| 0 < q < par.len() implies key_before(#[trigger] par[q], (pu as int, j + 1)) by {
                        if q < jn {
                            assert(par[q] == par_old[q]);
                            assert(key_before(par_old[q], (pu as int, j as int)));
                        }
                    }
                    assert forall|v: nat| v < n && #[trigger] visited@[v as int] implies w_new.contains(
                        NodeId(v as u32),
                    ) by {
                        if v == t {
                            assert(w_new[w_new.len() - 1] == NodeId(v as u32));
                        } else {
                            let i = choose|i: int| 0 <= i < w_old.len() && w_old[i] == NodeId(v as u32);
                            assert(w_new[i] == NodeId(v as u32));
                        }
                    }
                    assert forall|i: int, k: int|
                        0 <= i <= k < w_new.len() implies dist[(#[trigger] w_new[i]).0 as int]
                            <= dist[(#[trigger] w_new[k]).0 as int] by {
                        if k == w_new.len() - 1 {
                            assert(visited@[w_new[i].0 as int]);
                        } else {
                            assert(w_new[i] == w_old[i] && w_new[k] == w_old[k]);
                        }
                    }
                    assert forall|i: int| 0 <= i < queue@.len() implies !done[(#[trigger] queue@[i]).0 as int] by {
                        if i == queue@.len() - 1 {
                            assert(queue@[i] == e.to);
                        } else {
                            assert(w_new[order@.len() + i] == w_old[order@.len() + i]);
                        }
                    }
                }
            }
            j = j + 1;
        }
        proof {
            assert forall|v: int, k: int|
                0 <= v < n && 0 <= k < adj[v].len() && done[v] implies visited@[(#[trigger] adj[v][k]).to.0 as int] by {
                if v == u.0 {
                }
            }
            if queue@.len() > 0 {
                let h = queue@[0];
                let w = order@ + queue@;
                assert(w[order@.len() as int] == h);
                assert(w[order@.len() - 1] == u);
                assert(!done[h.0 as int]);
                let dh = dist[h.0 as int];
                assert(d <= dh <= d + 1);
                assert forall|v: nat| v < n && #[trigger] walk_within(adj, s, v, dh) implies visited@[v as int] by {
                    if dh == d + 1 && !walk_within(adj, s, v, d) {
                        if v != s {
                            let pe = lemma_within_pred(adj, s, v, dh);
                            let x = pe.from.0 as nat;
                            assert(visited@[x as int]);
                            lemma_shortest_le(adj, s, x, dist[x as int], d);
                            assert(done[x as int]);
                            let k = choose|k: int| 0 <= k < adj[x as int].len() && adj[x as int][k] == pe;
                            assert(adj[x as int][k] == pe);
                        }
                    }
                }
            }
        }
    }
    proof {
        assert(queue@.len() == 0);
        assert(order@ + queue@ =~= order@);
        assert forall|i: int| 0 <= i < order@.len() implies reachable(adj, s, #[trigger] order@[i].0 as nat) by {
            assert(visited@[order@[i].0 as int]);
            let p = choose|p: Seq<Edge>| #[trigger] is_walk(adj, s, order@[i].0 as nat, p) && p.len() <= dist[order@[i].0 as int];
            assert(is_walk(adj, s, order@[i].0 as nat, p));
        }
        let closed = |x: nat| x < n && visited@[x as int];
        assert forall|e: Edge| has_edge(adj, e) && #[trigger] closed(e.from.0 as nat) implies closed(e.to.0 as nat) by {
            let x = e.from.0 as nat;
            let i = choose|i: int| 0 <= i < order@.len() && order@[i] == NodeId(x as u32);
            assert(done[order@[i].0 as int]);
            let k = choose|k: int| 0 <= k < adj[x as int].len() && adj[x as int][k] == e;
            assert(adj[x as int][k] == e);
        }
        assert forall|v: nat| #[trigger] reachable(adj, s, v) implies order@.contains(NodeId(v as u32)) by {
            let p = choose|p: Seq<Edge>| #[trigger] is_walk(adj, s, v, p);
            lemma_closed_reach(adj, s, closed, v, p);
        }
        assert forall|i: int, j: int|
            0 <= i <= j < order@.len() implies no_farther(adj, s, #[trigger] order@[i].0 as nat, #[trigger] order@[j].0 as nat) by {
            assert(visited@[order@[i].0 as int]);
            assert(visited@[order@[j].0 as int]);
            lemma_no_farther(adj, s, order@[i].0 as nat, dist[order@[i].0 as int], order@[j].0 as nat, dist[order@[j].0 as int]);
        }
    }
    order
}

/// Breadth-first distances from `source`: entry `v` is the number of edges
/// on a shortest walk to `v`, or `u32::MAX` when `v` cannot be reached.
fn bfs_levels(g: &Graph, source: NodeId) -> (dist: Vec<u32>)
    requires
        source.0 < g@.len(),
    ensures
        dist@.len() == g@.len(),
        forall|v: nat| v < g@.len() ==> #[trigger] dist@[v as int] == level(g@, source.0 as nat, v),
{
    proof {
        use_type_invariant(g);
        g.lemma_inv();
    }
    let ghost adj = g@;
    let ghost s = source.0 as nat;
    let n = g.node_count();
    let mut dist = filled(u32::MAX, n);
    let mut queue: VecDeque<NodeId> = VecDeque::new();
    let ghost mut order: Seq<NodeId> = Seq::empty();
    let ghost mut vis: Seq<bool> = Seq::new(n as nat, |i: int| false);
    let ghost mut done: Seq<bool> = Seq::new(n as nat, |i: int| false);
    dist.set(source.index(), 0);
    queue.push_back(source);
    proof {
        lemma_walk_empty(adj, s);
        lemma_count_false_all(n as nat);
        lemma_count_false_set(vis, s as int);
        vis = vis.update(s as int, true);
        assert(order + queue@ =~= seq![source]);
        assert(source == NodeId(s as u32));
        assert forall|v: nat| v < n && #[trigger] vis[v as int] implies (order + queue@).contains(
            NodeId(v as u32),
        ) by {
            assert(v == s);
            assert((order + queue@)[0] == source);
        }
        assert forall|v: nat| v < n && walk_within(adj, s, v, 0) implies #[trigger] vis[v as int] by {
            let p = choose|p: Seq<Edge>| #[trigger] is_walk(adj, s, v, p) && p.len() <= 0;
        }
    }
    loop
        invariant
            adj == g@,
            n == adj.len(),
            n <= u32::MAX,
            well_formed_adj(adj),
            s == source.0,
            s < n,
            dist@.len() == n,
            vis.len() == n,
            done.len() == n,
            count_false(vis) + (order + queue@).len() == n,
            forall|v: nat| v < n ==> (#[trigger] vis[v as int] <==> dist@[v as int] != u32::MAX),
            (order + queue@).no_duplicates(),
            (order + queue@).len() > 0,
            (order + queue@)[0] == source,
            forall|i: int, j: int|
                0 <= i <= j < (order + queue@).len() ==> dist@[(#[trigger] (order + queue@)[i]).0 as int]
                    <= dist@[(#[trigger] (order + queue@)[j]).0 as int],
            forall|i: int| 0 <= i < (order + queue@).len() ==> (#[trigger] (order + queue@)[i]).0 < n
                && vis[(order + queue@)[i].0 as int] && dist@[(order + queue@)[i].0 as int] <= i,
            forall|v: nat| v < n && #[trigger] vis[v as int] ==> (order + queue@).contains(
                NodeId(v as u32),
            ),
            forall|i: int| 0 <= i < order.len() ==> done[(#[trigger] order[i]).0 as int],
            forall|i: int| 0 <= i < queue@.len() ==> !done[(#[trigger] queue@[i]).0 as int],
            forall|v: nat| v < n && #[trigger] done[v as int] ==> vis[v as int],
            forall|v: nat| v < n && #[trigger] vis[v as int] ==> shortest(adj, s, v, dist@[v as int] as nat),
            forall|v: int, j: int|
                0 <= v < n && 0 <= j < adj[v].len() && done[v] ==> vis[(#[trigger] adj[v][j]).to.0 as int],
            queue@.len() > 0 ==> forall|v: nat|
                v < n && #[trigger] vis[v as int] && !done[v as int] ==> dist@[queue@[0].0 as int]
                    <= dist@[v as int] <= dist@[queue@[0].0 as int] + 1,
            queue@.len() > 0 ==> forall|v: nat|
                v < n && #[trigger] done[v as int] ==> dist@[v as int] <= dist@[queue@[0].0 as int],
            queue@.len() > 0 ==> forall|v: nat|
                v < n && #[trigger] walk_within(adj, s, v, dist@[queue@[0].0 as int] as nat) ==> vis[v as int],
        ensures
            queue@.len() == 0,
        decreases count_false(vis) + queue@.len(),
    {
        let ghost w_before = order + queue@;
        let ghost measure_before = count_false(vis) + queue@.len();
        let node = match queue.pop_front() {
            None => break,
            Some(node) => node,
        };
        let ghost d = dist@[node.0 as int] as nat;
        proof {
            assert(w_before[order.len() as int] == node);
            assert(queue@ =~= w_before.subrange(order.len() as int + 1, w_before.len() as int));
            order = order.push(node);
            assert(order + queue@ =~= w_before);
            let old_done = done;
            done = done.update(node.0 as int, true);
            assert forall|i: int| 0 <= i < order.len() implies done[(#[trigger] order[i]).0 as int] by {
                if i < order.len() - 1 {
                    assert(w_before[i] == order[i]);
                    assert(old_done[order[i].0 as int]);
                }
            }
            assert forall|i: int| 0 <= i < queue@.len() implies !done[(#[trigger] queue@[i]).0 as int] by {
                assert(queue@[i] == w_before[order.len() + i]);
                assert(w_before[order.len() - 1] == node);
            }
            assert(dist@[w_before[order.len() - 1].0 as int] <= order.len() - 1);
        }
        let nb = g.neighbors(node);
        let m = nb.len();
        let mut j: usize = 0;
        while j < m
            invariant
                adj == g@,
                n == adj.len(),
                n <= u32::MAX,
                well_formed_adj(adj),
                s == source.0,
                s < n,
                node.0 < n,
                nb@ == adj[node.0 as int],
                m == nb@.len(),
                j <= m,
                d == dist@[node.0 as int],
                d < order.len(),
                order.len() > 0,
                order[order.len() - 1] == node,
                done[node.0 as int],
                dist@.len() == n,
                vis.len() == n,
                done.len() == n,
                count_false(vis) + (order + queue@).len() == n,
                count_false(vis) + queue@.len() + 1 == measure_before,
                forall|v: nat| v < n ==> (#[trigger] vis[v as int] <==> dist@[v as int] != u32::MAX),
                (order + queue@).no_duplicates(),
                (order + queue@).len() > 0,
                (order + queue@)[0] == source,
                forall|i: int, j: int|
                    0 <= i <= j < (order + queue@).len() ==> dist@[(#[trigger] (order + queue@)[i]).0 as int]
                        <= dist@[(#[trigger] (order + queue@)[j]).0 as int],
                forall|i: int| 0 <= i < (order + queue@).len() ==> (#[trigger] (order + queue@)[i]).0 < n
                    && vis[(order + queue@)[i].0 as int] && dist@[(order + queue@)[i].0 as int] <= i,
                forall|v: nat| v < n && #[trigger] vis[v as int] ==> (order + queue@).contains(
                    NodeId(v as u32),
                ),
                forall|i: int| 0 <= i < order.len() ==> done[(#[trigger] order[i]).0 as int],
                forall|i: int| 0 <= i < queue@.len() ==> !done[(#[trigger] queue@[i]).0 as int],
                forall|v: nat| v < n && #[trigger] done[v as int] ==> vis[v as int],
                forall|v: nat| v < n && #[trigger] vis[v as int] ==> shortest(adj, s, v, dist@[v as int] as nat),
                forall|v: int, k: int|
                    0 <= v < n && 0 <= k < adj[v].len() && done[v] && v != node.0 ==> vis[(#[trigger] adj[v][k]).to.0 as int],
                forall|k: int| 0 <= k < j ==> vis[(#[trigger] adj[node.0 as int][k]).to.0 as int],
                forall|v: nat|
                    v < n && #[trigger] vis[v as int] && !done[v as int] ==> d <= dist@[v as int] <= d + 1,
                forall|v: nat| v < n && #[trigger] done[v as int] ==> dist@[v as int] <= d,
                forall|v: nat| v < n && #[trigger] walk_within(adj, s, v, d) ==> vis[v as int],
            decreases m - j,
        {
            let e = nb[j];
            let t = e.to.index();
            proof {
                assert(adj[node.0 as int][j as int] == e);
                assert(has_edge(adj, e)) by {
                    assert(adj[e.from.0 as int][j as int] == e);
                }
            }
            if dist[t] == u32::MAX {
                let ghost w_old = order + queue@;
                proof {
                    assert(!vis[t as int]);
                    lemma_count_false_set(vis, t as int);
                    lemma_within_push(adj, s, node.0 as nat, d, e);
                    if walk_within(adj, s, t as nat, d) {
                        let pe = lemma_within_pred(adj, s, t as nat, d);
                        let x = pe.from.0 as nat;
                        lemma_within_mono(adj, s, x, (d - 1) as nat, d);
                        assert(vis[x as int]);
                        lemma_shortest_le(adj, s, x, dist@[x as int] as nat, (d - 1) as nat);
                        assert(done[x as int]);
                        let k = choose|k: int| 0 <= k < adj[x as int].len() && adj[x as int][k] == pe;
                        assert(adj[x as int][k] == pe);
                        assert(false);
                    }
                    assert(!w_old.contains(NodeId(t as u32))) by {
                        if w_old.contains(NodeId(t as u32)) {
                            let i = choose|i: int| 0 <= i < w_old.len() && w_old[i] == NodeId(t as u32);
                            assert(vis[w_old[i].0 as int]);
                        }
                    }
                    assert(w_old[order.len() - 1] == node);
                    assert(count_false(vis) >= 1);
                }
                dist.set(t, dist[node.index()] + 1);
                queue.push_back(e.to);
                proof {
                    vis = vis.update(t as int, true);
                    let w_new = order + queue@;
                    assert(w_new =~= w_old.push(e.to));
                    assert forall|v: nat| v < n && #[trigger] vis[v as int] implies w_new.contains(
                        NodeId(v as u32),
                    ) by {
                        if v == t {
                            assert(w_new[w_new.len() - 1] == NodeId(v as u32));
                        } else {
                            let i = choose|i: int| 0 <= i < w_old.len() && w_old[i] == NodeId(v as u32);
                            assert(w_new[i] == NodeId(v as u32));
                        }
                    }
                    assert forall|i: int, k: int|
                        0 <= i <= k < w_new.len() implies dist@[(#[trigger] w_new[i]).0 as int]
                            <= dist@[(#[trigger] w_new[k]).0 as int] by {
                        if k == w_new.len() - 1 {
                            assert(vis[w_new[i].0 as int]);
                        } else {
                            assert(w_new[i] == w_old[i] && w_new[k] == w_old[k]);
                        }
                    }
                    assert forall|i: int| 0 <= i < w_new.len() implies (#[trigger] w_new[i]).0 < n
                        && vis[w_new[i].0 as int] && dist@[w_new[i].0 as int] <= i by {
                        if i < w_new.len() - 1 {
                            assert(w_new[i] == w_old[i]);
                        }
                    }
                    assert forall|i: int| 0 <= i < queue@.len() implies !done[(#[trigger] queue@[i]).0 as int] by {
                        if i == queue@.len() - 1 {
                            assert(queue@[i] == e.to);
                        } else {
                            assert(w_new[order.len() + i] == w_old[order.len() + i]);
                        }
                    }
                }
            }
            j = j + 1;
        }
        proof {
            if queue@.len() > 0 {
                let h = queue@[0];
                let w = order + queue@;
                assert(w[order.len() as int] == h);
                assert(!done[h.0 as int]);
                let dh = dist@[h.0 as int] as nat;
                assert(d <= dh <= d + 1);
                assert forall|v: nat| v < n && #[trigger] walk_within(adj, s, v, dh) implies vis[v as int] by {
                    if dh == d + 1 && !walk_within(adj, s, v, d) {
                        if v != s {
                            let pe = lemma_within_pred(adj, s, v, dh);
                            let x = pe.from.0 as nat;
                            assert(vis[x as int]);
                            lemma_shortest_le(adj, s, x, dist@[x as int] as nat, d);
                            assert(done[x as int]);
                            let k = choose|k: int| 0 <= k < adj[x as int].len() && adj[x as int][k] == pe;
                            assert(adj[x as int][k] == pe);
                        }
                    }
                }
            }
        }
    }
    proof {
        assert(order + queue@ =~= order);
        let closed = |x: nat| x < n && vis[x as int];
        assert forall|e: Edge| has_edge(adj, e) && #[trigger] closed(e.from.0 as nat) implies closed(e.to.0 as nat) by {
            let x = e.from.0 as nat;
            let i = choose|i: int| 0 <= i < order.len() && order[i] == NodeId(x as u32);
            assert(done[order[i].0 as int]);
            let k = choose|k: int| 0 <= k < adj[x as int].len() && adj[x as int][k] == e;
            assert(adj[x as int][k] == e);
        }
        assert forall|v: nat| v < n implies #[trigger] dist@[v as int] == level(adj, s, v) by {
            if vis[v as int] {
                lemma_level_is_shortest(adj, s, v, dist@[v as int] as nat);
            } else if reachable(adj, s, v) {
                let p = choose|p: Seq<Edge>| #[trigger] is_walk(adj, s, v, p);
                lemma_closed_reach(adj, s, closed, v, p);
            }
        }
    }
    dist
}

/// Every node reachable from `s` at a smaller level than `order[i]` is
/// listed before position `i`.
pub open spec fn complete_before(adj: Seq<Seq<Edge>>, s: nat, order: Seq<NodeId>, i: int) -> bool {
    forall|v: nat|
        v < adj.len() && reachable(adj, s, v) && #[trigger] level(adj, s, v) < level(
            adj,
            s,
            order[i].0 as nat,
        ) ==> order.take(i).contains(node(v))
}

/// Position `i` of `order` is in breadth-first place: no earlier node is
/// farther from `s`, and every nearer node came earlier.
pub open spec fn in_place_at(adj: Seq<Seq<Edge>>, s: nat, order: Seq<NodeId>, i: int) -> bool {
    &&& forall|k: int|
        0 <= k < i ==> level(adj, s, #[trigger] order[k].0 as nat) <= level(adj, s, order[i].0 as nat)
    &&& complete_before(adj, s, order, i)
}

/// Every prefix of `order` is complete by distance from `s`, and levels
/// never decrease along it.
pub open spec fn distance_ordered(adj: Seq<Seq<Edge>>, s: nat, order: Seq<NodeId>) -> bool {
    forall|i: int| 0 <= i < order.len() ==> #[trigger] in_place_at(adj, s, order, i)
}

/// The first position of `order` that is out of breadth-first place
/// relative to `source`, or `None` when every prefix is complete by
/// distance and levels never decrease.
pub fn bfs_order_violation(g: &Graph, source: NodeId, order: &[NodeId]) -> (r: Option<usize>)
    requires
        source.0 < g@.len(),
        forall|i: int| 0 <= i < order@.len() ==> (#[trigger] order@[i]).0 < g@.len(),
    ensures
        r is None <==> distance_ordered(g@, source.0 as nat, order@),
        r matches Some(i) ==> i < order@.len() && !in_place_at(g@, source.0 as nat, order@, i as int),
        r matches Some(i) ==> forall|k: int| 0 <= k < i ==> in_place_at(g@, source.0 as nat, order@, k),
{
    proof {
        use_type_invariant(g);
        g.lemma_inv();
    }
    let ghost adj = g@;
    let ghost s = source.0 as nat;
    let dist = bfs_levels(g, source);
    let n = g.node_count();
    let mut seen: Vec<bool> = filled(false, n);
    let mut hi: u32 = 0;
    let mut i: usize = 0;
    while i < order.len()
        invariant
            adj == g@,
            s == source.0 as nat,
            n == adj.len(),
            adj.len() <= u32::MAX,
            i <= order@.len(),
            dist@.len() == n,
            forall|v: nat| v < n ==> #[trigger] dist@[v as int] == level(adj, s, v),
            forall|k: int| 0 <= k < order@.len() ==> (#[trigger] order@[k]).0 < n,
            seen@.len() == n,
            forall|v: nat| v < n ==> (#[trigger] seen@[v as int] <==> order@.take(i as int).contains(node(v))),
            forall|k: int| 0 <= k < i ==> #[trigger] in_place_at(adj, s, order@, k),
            forall|k: int| 0 <= k < i ==> level(adj, s, #[trigger] order@[k].0 as nat) <= hi,
            i > 0 ==> exists|k: int| 0 <= k < i && level(adj, s, #[trigger] order@[k].0 as nat) == hi,
            i == 0 ==> hi == 0,
        decreases order@.len() - i,
    {
        let x = order[i].index();
        let d = dist[x];
        assert(d == level(adj, s, order@[i as int].0 as nat));
        if d < hi {
            proof {
                let k = choose|k: int| 0 <= k < i && level(adj, s, #[trigger] order@[k].0 as nat) == hi;
                assert(level(adj, s, order@[k].0 as nat) > level(adj, s, order@[i as int].0 as nat));
                assert(!in_place_at(adj, s, order@, i as int));
            }
            return Some(i);
        }
        let mut v: usize = 0;
        while v < n
            invariant
                adj == g@,
                s == source.0 as nat,
                n == adj.len(),
                adj.len() <= u32::MAX,
                v <= n,
                i < order@.len(),
                forall|k: int| 0 <= k < i ==> #[trigger] in_place_at(adj, s, order@, k),
                dist@.len() == n,
                seen@.len() == n,
                d == level(adj, s, order@[i as int].0 as nat),
                forall|w: nat| w < n ==> #[trigger] dist@[w as int] == level(adj, s, w),
                forall|w: nat| w < n ==> (#[trigger] seen@[w as int] <==> order@.take(i as int).contains(node(w))),
                forall|w: nat|
                    w < v && reachable(adj, s, w) && #[trigger] level(adj, s, w) < d ==> order@.take(
                        i as int,
                    ).contains(node(w)),
            decreases n - v,
        {
            assert(dist@[v as int] == level(adj, s, v as nat));
            if dist[v] < d && !seen[v] {
                proof {
                    let w = v as nat;
                    if !reachable(adj, s, w) {
                        assert(level(adj, s, w) == u32::MAX as nat);
                    }
                    assert(reachable(adj, s, w) && level(adj, s, w) < level(adj, s, order@[i as int].0 as nat));
                    assert(!order@.take(i as int).contains(node(w)));
                    assert(!complete_before(adj, s, order@, i as int));
                    assert(!in_place_at(adj, s, order@, i as int));
                }
                return Some(i);
            }
            proof {
                let w = v as nat;
                if reachable(adj, s, w) && level(adj, s, w) < d {
                    assert(seen@[w as int]);
                }
            }
            v = v + 1;
        }
        assert(complete_before(adj, s, order@, i as int));
        assert(in_place_at(adj, s, order@, i as int));
        let ghost old_seen = seen@;
        seen.set(x, true);
        proof {
            let t = order@.take(i as int);
            let t2 = order@.take(i as int + 1);
            assert(t2 =~= t.push(order@[i as int]));
            assert forall|w: nat| w < n implies (#[trigger] seen@[w as int] <==> t2.contains(node(w))) by {
                assert(old_seen[w as int] <==> t.contains(node(w)));
                if w == x as nat {
                    assert(t2[i as int] == node(w));
                } else {
                    assert(order@[i as int] != node(w));
                    if t2.contains(node(w)) {
                        let j = choose|j: int| 0 <= j < t2.len() && t2[j] == node(w);
                        assert(j != i as int);
                        assert(t[j] == node(w));
                    }
                }
            }
        }
        if d > hi {
            hi = d;
        }
        proof {
            assert forall|k: int| 0 <= k < i + 1 implies level(adj, s, #[trigger] order@[k].0 as nat) <= hi by {
                if k < i {
                    assert(level(adj, s, order@[k].0 as nat) <= hi);
                }
            }
            if d == hi {
                assert(level(adj, s, order@[i as int].0 as nat) == hi);
            } else {
                let k = choose|k: int| 0 <= k < i && level(adj, s, #[trigger] order@[k].0 as nat) == hi;
                assert(level(adj, s, order@[k].0 as nat) == hi);
            }
        }
        i = i + 1;
    }
    None
}

/// Checks that `order` is a breadth-first visit order from `source`: every
/// prefix is complete by distance (each node nearer to `source` than a
/// listed node is listed before it) and levels never decrease along it
/// (unreachable nodes count as farthest).
pub fn assert_bfs_distance_monotonic(g: &Graph, source: NodeId, order: &[NodeId])
    requires
        source.0 < g@.len(),
        forall|i: int| 0 <= i < order@.len() ==> (#[trigger] order@[i]).0 < g@.len(),
        distance_ordered(g@, source.0 as nat, order@),
{
    let dist = bfs_levels(g, source);
    let mut last: u32 = 0;
    let m = order.len();
    let mut i: usize = 0;
    while i < m
        invariant
            i <= m,
            m == order@.len(),
            dist@.len() == g@.len(),
            forall|v: nat| v < g@.len() ==> #[trigger] dist@[v as int] == level(g@, source.0 as nat, v),
            forall|k: int| 0 <= k < order@.len() ==> (#[trigger] order@[k]).0 < g@.len(),
            distance_ordered(g@, source.0 as nat, order@),
            i > 0 ==> last == level(g@, source.0 as nat, order@[i - 1].0 as nat),
            i == 0 ==> last == 0,
        decreases m - i,
    {
        let d = dist[order[i].index()];
        assert(d >= last) by {
            if i > 0 {
                assert(in_place_at(g@, source.0 as nat, order@, i as int));
                assert(level(g@, source.0 as nat, order@[i - 1].0 as nat) <= level(
                    g@,
                    source.0 as nat,
                    order@[i as int].0 as nat,
                ));
            }
        }
        last = d;
        i = i + 1;
    }
}

/// Law: an order with the breadth-first properties that `bfs` guarantees
/// (only reachable nodes, every reachable node, no node twice, never a
/// nearer node after a farther one) has every prefix complete by distance
/// and never-decreasing levels, so it passes `assert_bfs_distance_monotonic`.
pub proof fn lemma_bfs_order_passes_distance_check(adj: Seq<Seq<Edge>>, s: nat, order: Seq<NodeId>)
    requires
        well_formed_adj(adj),
        order.no_duplicates(),
        forall|i: int| 0 <= i < order.len() ==> reachable(adj, s, #[trigger] order[i].0 as nat),
        forall|v: nat| #[trigger] reachable(adj, s, v) ==> order.contains(NodeId(v as u32)),
        forall|i: int, j: int|
            0 <= i <= j < order.len() ==> no_farther(
                adj,
                s,
                #[trigger] order[i].0 as nat,
                #[trigger] order[j].0 as nat,
            ),
    ensures
        distance_ordered(adj, s, order),
{
    assert forall|i: int, j: int| 0 <= i <= j < order.len() implies level(
        adj,
        s,
        #[trigger] order[i].0 as nat,
    ) <= level(adj, s, #[trigger] order[j].0 as nat) by {
        let a = order[i].0 as nat;
        let b = order[j].0 as nat;
        lemma_level_reachable(adj, s, a);
        lemma_level_reachable(adj, s, b);
        assert(no_farther(adj, s, a, b));
        assert(walk_within(adj, s, b, level(adj, s, b)));
        lemma_shortest_le(adj, s, a, level(adj, s, a), level(adj, s, b));
    }
    assert forall|i: int| 0 <= i < order.len() implies #[trigger] in_place_at(adj, s, order, i) by {
        assert forall|k: int| 0 <= k < i implies level(adj, s, #[trigger] order[k].0 as nat) <= level(
            adj,
            s,
            order[i].0 as nat,
        ) by {
            assert(level(adj, s, order[k].0 as nat) <= level(adj, s, order[i].0 as nat));
        }
        assert forall|v: nat|
            v < adj.len() && reachable(adj, s, v) && #[trigger] level(adj, s, v) < level(
                adj,
                s,
                order[i].0 as nat,
            ) implies order.take(i).contains(node(v)) by {
            assert(order.contains(NodeId(v as u32)));
            let p = choose|p: int| 0 <= p < order.len() && order[p] == NodeId(v as u32);
            assert(order[p].0 as nat == v);
            if p >= i {
                assert(level(adj, s, order[i].0 as nat) <= level(adj, s, order[p].0 as nat));
                assert(false);
            }
            assert(order.take(i)[p] == node(v));
        }
    }
}

/// Some edge of the graph leads from `a` to `b`.
pub open spec fn edge_between(adj: Seq<Seq<Edge>>, a: nat, b: nat) -> bool {
    exists|e: Edge| #[trigger] has_edge(adj, e) && e.from.0 == a && e.to.0 == b
}

/// Node `order[i]` has an edge into it from a node listed before it.
pub open spec fn entered_from_earlier(adj: Seq<Seq<Edge>>, order: Seq<NodeId>, i: int) -> bool {
    exists|j: int| 0 <= j < i && edge_between(adj, #[trigger] order[j].0 as nat, order[i].0 as nat)
}

/// Some node of `order` has an edge into `x`.
pub open spec fn fed_by(adj: Seq<Seq<Edge>>, order: Seq<NodeId>, x: NodeId) -> bool {
    exists|j: int| 0 <= j < order.len() && edge_between(adj, #[trigger] order[j].0 as nat, x.0 as nat)
}

/// Position `a` is position `b` or an ancestor of it in the search tree
/// whose parent positions `par` records.
pub open spec fn is_anc(par: Seq<(int, int)>, a: int, b: int) -> bool
    decreases b,
{
    if a == b {
        true
    } else if 0 < b < par.len() && 0 <= par[b].0 < b {
        is_anc(par, a, par[b].0)
    } else {
        false
    }
}

/// Every parent position comes before its child.
pub open spec fn parents_earlier(par: Seq<(int, int)>) -> bool {
    forall|x: int| 0 < x < par.len() ==> 0 <= (#[trigger] par[x]).0 < x
}

/// Every edge of node `order[c]` leads to a node among the first `j`.
pub open spec fn edges_into(adj: Seq<Seq<Edge>>, order: Seq<NodeId>, c: int, j: int) -> bool {
    forall|k: int|
        0 <= k < adj[order[c].0 as int].len() ==> order.take(j).contains(#[trigger] adj[order[c].0 as int][k].to)
}

/// Depth-first search goes on from `order[j - 1]` to `order[j]`: it takes
/// edge `par[j].1` of `order[par[j].0]`, an ancestor of `order[j - 1]` in the
/// search tree, whose earlier edges lead to visited nodes, and every node
/// on the tree path below that ancestor down to `order[j - 1]` has only
/// visited neighbors left.
pub open spec fn dfs_step(adj: Seq<Seq<Edge>>, order: Seq<NodeId>, par: Seq<(int, int)>, j: int) -> bool {
    let i = par[j].0;
    let k = par[j].1;
    &&& 0 <= i < j
    &&& 0 <= k < adj[order[i].0 as int].len()
    &&& adj[order[i].0 as int][k].to == order[j]
    &&& is_anc(par, i, j - 1)
    &&& forall|k2: int| 0 <= k2 < k ==> order.take(j).contains(#[trigger] adj[order[i].0 as int][k2].to)
    &&& forall|c: int| is_anc(par, c, j - 1) && is_anc(par, i, c) && c != i ==> #[trigger] edges_into(adj, order, c, j)
}

/// Ancestry of position `b` depends only on the parents up to `b`.
proof fn lemma_anc_same_prefix(p1: Seq<(int, int)>, p2: Seq<(int, int)>, a: int, b: int)
    requires
        b < p1.len(),
        b < p2.len(),
        forall|x: int| 0 < x <= b ==> p1[x] == p2[x],
    ensures
        is_anc(p1, a, b) == is_anc(p2, a, b),
    decreases b,
{
    if a != b && 0 < b && 0 <= p1[b].0 < b {
        lemma_anc_same_prefix(p1, p2, a, p1[b].0);
    }
}

/// Two depth-first search trees over orders from the same first node agree,
/// nodes and parents, wherever both orders are defined.
pub proof fn lemma_dfs_prefix_agrees(
    adj: Seq<Seq<Edge>>,
    o1: Seq<NodeId>,
    o2: Seq<NodeId>,
    par1: Seq<(int, int)>,
    par2: Seq<(int, int)>,
    j: int,
)
    requires
        dfs_tree(adj, o1, par1),
        dfs_tree(adj, o2, par2),
        o1.no_duplicates(),
        o2.no_duplicates(),
        o1.len() > 0,
        o2.len() > 0,
        o1[0] == o2[0],
        0 <= j <= o1.len(),
        j <= o2.len(),
    ensures
        forall|x: int| 0 <= x < j ==> o1[x] == o2[x],
        forall|x: int| 0 < x < j ==> par1[x] == par2[x],
    decreases j,
{
    if j > 1 {
        let i = j - 1;
        lemma_dfs_prefix_agrees(adj, o1, o2, par1, par2, i);
        assert(dfs_step(adj, o1, par1, i));
        assert(dfs_step(adj, o2, par2, i));
        let (i1, k1) = par1[i];
        let (i2, k2) = par2[i];
        assert(o1.take(i) =~= o2.take(i));
        assert forall|c: int| #[trigger] is_anc(par1, c, i - 1) == is_anc(par2, c, i - 1) by {
            lemma_anc_same_prefix(par1, par2, c, i - 1);
        }
        assert(!o1.take(i).contains(o1[i])) by {
            if o1.take(i).contains(o1[i]) {
                let y = choose|y: int| 0 <= y < i && o1.take(i)[y] == o1[i];
                assert(o1[y] == o1[i]);
            }
        }
        assert(!o2.take(i).contains(o2[i])) by {
            if o2.take(i).contains(o2[i]) {
                let y = choose|y: int| 0 <= y < i && o2.take(i)[y] == o2[i];
                assert(o2[y] == o2[i]);
            }
        }
        assert(is_anc(par1, i2, i - 1));
        if i1 < i2 {
            lemma_anc_total(par1, i1, i2, i - 1);
            assert(edges_into(adj, o1, i2, i));
            assert(o1[i2] == o2[i2]);
            assert(o1.take(i).contains(adj[o1[i2].0 as int][k2].to));
            assert(false);
        }
        if i2 < i1 {
            assert(is_anc(par2, i1, i - 1));
            lemma_anc_total(par2, i2, i1, i - 1);
            assert(edges_into(adj, o2, i1, i));
            assert(o1[i1] == o2[i1]);
            assert(o2.take(i).contains(adj[o2[i1].0 as int][k1].to));
            assert(false);
        }
        assert(o1[i1] == o2[i1]);
        if k1 < k2 {
            assert(o2.take(i).contains(adj[o2[i2].0 as int][k1].to));
            assert(false);
        }
        if k2 < k1 {
            assert(o1.take(i).contains(adj[o1[i1].0 as int][k2].to));
            assert(false);
        }
    }
}

/// `par` is the search tree of the depth-first visit order `order`: each
/// node after the first is the next one that depth-first search reaches.
pub open spec fn dfs_tree(adj: Seq<Seq<Edge>>, order: Seq<NodeId>, par: Seq<(int, int)>) -> bool {
    &&& par.len() == order.len()
    &&& parents_earlier(par)
    &&& forall|j: int| 0 < j < order.len() ==> #[trigger] dfs_step(adj, order, par, j)
}

/// An ancestor comes no later than its descendant.
proof fn lemma_anc_le(par: Seq<(int, int)>, a: int, b: int)
    requires
        is_anc(par, a, b),
    ensures
        a <= b,
        0 <= b ==> 0 <= a,
    decreases b,
{
    if a != b {
        lemma_anc_le(par, a, par[b].0);
    }
}

/// Being an ancestor is transitive.
proof fn lemma_anc_trans(par: Seq<(int, int)>, a: int, b: int, c: int)
    requires
        is_anc(par, a, b),
        is_anc(par, b, c),
    ensures
        is_anc(par, a, c),
    decreases c,
{
    if b != c {
        lemma_anc_trans(par, a, b, par[c].0);
    }
}

/// Two ancestors of one node are ancestors one of the other.
proof fn lemma_anc_total(par: Seq<(int, int)>, a: int, b: int, x: int)
    requires
        is_anc(par, a, x),
        is_anc(par, b, x),
        a <= b,
    ensures
        is_anc(par, a, b),
    decreases x,
{
    if b != x {
        if a == x {
            lemma_anc_le(par, b, par[x].0);
        } else {
            lemma_anc_total(par, a, b, par[x].0);
        }
    }
}

/// Ancestry among the first positions survives a new position at the end.
proof fn lemma_anc_push(par: Seq<(int, int)>, x: (int, int), a: int, b: int)
    requires
        is_anc(par, a, b),
        b < par.len(),
    ensures
        is_anc(par.push(x), a, b),
    decreases b,
{
    if a != b {
        assert(par.push(x)[b] == par[b]);
        lemma_anc_push(par, x, a, par[b].0);
    }
}

/// Ancestry in a longer record, at positions it shares, holds in the shorter.
proof fn lemma_anc_pop(par: Seq<(int, int)>, x: (int, int), a: int, b: int)
    requires
        is_anc(par.push(x), a, b),
        b < par.len(),
    ensures
        is_anc(par, a, b),
    decreases b,
{
    if a != b {
        assert(par.push(x)[b] == par[b]);
        lemma_anc_pop(par, x, a, par[b].0);
    }
}

/// Stack entry `q` is the target of edge `tag[q].1` of node
/// `order[tag[q].0]`, an ancestor of the node visited last.
spec fn tag_ok(
    adj: Seq<Seq<Edge>>,
    order: Seq<NodeId>,
    par: Seq<(int, int)>,
    stack: Seq<NodeId>,
    tag: Seq<(int, int)>,
    q: int,
) -> bool {
    let o = tag[q].0;
    let k = tag[q].1;
    &&& 0 <= o < order.len()
    &&& 0 <= k < adj[order[o].0 as int].len()
    &&& stack[q] == adj[order[o].0 as int][k].to
    &&& is_anc(par, o, order.len() - 1)
}

/// A stack entry pushed for an ancestor lies below one pushed for a
/// descendant; entries of one node lie in decreasing edge order.
spec fn tag_below(a: (int, int), b: (int, int)) -> bool {
    a.0 < b.0 || (a.0 == b.0 && a.1 > b.1)
}

/// A search step stays one when the order and the tree grow at the end.
proof fn lemma_dfs_step_push(
    adj: Seq<Seq<Edge>>,
    order: Seq<NodeId>,
    par: Seq<(int, int)>,
    x: NodeId,
    key: (int, int),
    j: int,
)
    requires
        dfs_step(adj, order, par, j),
        0 < j < order.len(),
        par.len() == order.len(),
    ensures
        dfs_step(adj, order.push(x), par.push(key), j),
{
    let o2 = order.push(x);
    let p2 = par.push(key);
    let i = par[j].0;
    assert(p2[j] == par[j]);
    assert(o2.take(j) =~= order.take(j));
    assert(o2[i] == order[i] && o2[j] == order[j]);
    lemma_anc_push(par, key, i, j - 1);
    assert forall|c: int| is_anc(p2, c, j - 1) && is_anc(p2, i, c) && c != i implies #[trigger] edges_into(adj, o2, c, j) by {
        lemma_anc_pop(par, key, c, j - 1);
        lemma_anc_le(p2, c, j - 1);
        lemma_anc_pop(par, key, i, c);
        assert(edges_into(adj, order, c, j));
        assert(o2[c] == order[c]);
    }
}

/// Depth-first search from `source`, in pre-order. The visit order starts at
/// `source`, holds every node reachable from it exactly once and nothing
/// else, and every later node is entered along an edge from a node visited
/// before it: the first unvisited neighbor, in edge order, of the deepest
/// node on the current search path that has one.
pub fn dfs(g: &Graph, source: NodeId) -> (order: Vec<NodeId>)
    requires
        source.0 < g@.len(),
    ensures
        order@.len() > 0,
        order@[0] == source,
        order@.no_duplicates(),
        forall|i: int| 0 <= i < order@.len() ==> reachable(g@, source.0 as nat, #[trigger] order@[i].0 as nat),
        forall|v: nat| #[trigger] reachable(g@, source.0 as nat, v) ==> order@.contains(NodeId(v as u32)),
        forall|i: int| 0 < i < order@.len() ==> #[trigger] entered_from_earlier(g@, order@, i),
        exists|par: Seq<(int, int)>| #[trigger] dfs_tree(g@, order@, par),
{
    proof {
        use_type_invariant(g);
        g.lemma_inv();
    }
    let ghost adj = g@;
    let ghost s = source.0 as nat;
    let n = g.node_count();
    let mut visited = filled(false, n);
    let mut order: Vec<NodeId> = Vec::new();
    let mut stack: Vec<NodeId> = Vec::new();
    stack.push(source);
    let ghost mut par: Seq<(int, int)> = Seq::empty();
    let ghost mut tag: Seq<(int, int)> = Seq::empty();
    proof {
        lemma_walk_empty(adj, s);
    }
    loop
        invariant
            adj == g@,
            n == adj.len(),
            well_formed_adj(adj),
            s == source.0,
            s < n,
            visited@.len() == n,
            order@.len() == 0 ==> stack@ == seq![source],
            order@.len() > 0 ==> order@[0] == source,
            order@.no_duplicates(),
            forall|i: int| 0 <= i < order@.len() ==> (#[trigger] order@[i]).0 < n && visited@[order@[i].0 as int]
                && reachable(adj, s, order@[i].0 as nat),
            forall|v: nat| v < n && #[trigger] visited@[v as int] ==> order@.contains(NodeId(v as u32)),
            forall|k: int| 0 <= k < stack@.len() ==> (#[trigger] stack@[k]).0 < n && reachable(adj, s, stack@[k].0 as nat),
            order@.len() > 0 ==> forall|k: int| 0 <= k < stack@.len() ==> fed_by(adj, order@, #[trigger] stack@[k]),
            forall|i: int| 0 < i < order@.len() ==> #[trigger] entered_from_earlier(adj, order@, i),
            forall|v: int, j: int|
                0 <= v < n && 0 <= j < adj[v].len() && visited@[v] ==> visited@[(#[trigger] adj[v][j]).to.0 as int]
                    || stack@.contains(adj[v][j].to),
            par.len() == order@.len(),
            dfs_tree(adj, order@, par),
            order@.len() > 0 ==> tag.len() == stack@.len(),
            order@.len() > 0 ==> forall|q: int| 0 <= q < tag.len() ==> #[trigger] tag_ok(adj, order@, par, stack@, tag, q),
            order@.len() > 0 ==> forall|q1: int, q2: int| 0 <= q1 < q2 < tag.len() ==> tag_below(#[trigger] tag[q1], #[trigger] tag[q2]),
            order@.len() > 0 ==> forall|c: int, k: int|
                is_anc(par, c, order@.len() - 1) && 0 <= k < adj[order@[c].0 as int].len() ==> visited@[(#[trigger] adj[order@[c].0 as int][k]).to.0 as int]
                    || tag.contains((c, k)),
        ensures
            stack@.len() == 0,
        decreases count_false(visited@), stack@.len(),
    {
        let ghost old_stack = stack@;
        let ghost old_tag = tag;
        let u = match stack.pop() {
            None => break,
            Some(u) => u,
        };
        proof {
            assert(old_stack.last() == u);
            assert(stack@ =~= old_stack.drop_last());
            if order@.len() == 0 {
                tag = Seq::empty();
            } else {
                tag = tag.drop_last();
                assert forall|q: int| 0 <= q < tag.len() implies #[trigger] tag_ok(adj, order@, par, stack@, tag, q) by {
                    assert(tag_ok(adj, order@, par, old_stack, old_tag, q));
                    assert(tag[q] == old_tag[q] && stack@[q] == old_stack[q]);
                }
                assert forall|q1: int, q2: int| 0 <= q1 < q2 < tag.len() implies tag_below(#[trigger] tag[q1], #[trigger] tag[q2]) by {
                    assert(tag[q1] == old_tag[q1] && tag[q2] == old_tag[q2]);
                }
            }
        }
        if visited[u.index()] {
            proof {
                assert forall|v: int, j: int|
                    0 <= v < n && 0 <= j < adj[v].len() && visited@[v] implies visited@[(#[trigger] adj[v][j]).to.0 as int]
                        || stack@.contains(adj[v][j].to) by {
                    let w = adj[v][j].to;
                    if !visited@[w.0 as int] {
                        assert(old_stack.contains(w));
                        let k = choose|k: int| 0 <= k < old_stack.len() && old_stack[k] == w;
                        if k == old_stack.len() - 1 {
                            assert(w == u);
                        } else {
                            assert(stack@[k] == w);
                        }
                    }
                }
                if order@.len() > 0 {
                    assert forall|k: int| 0 <= k < stack@.len() implies fed_by(adj, order@, #[trigger] stack@[k]) by {
                        assert(stack@[k] == old_stack[k]);
                    }
                    assert forall|c: int, k: int|
                        is_anc(par, c, order@.len() - 1) && 0 <= k < adj[order@[c].0 as int].len() implies visited@[(#[trigger] adj[order@[c].0 as int][k]).to.0 as int]
                            || tag.contains((c, k)) by {
                        if !visited@[adj[order@[c].0 as int][k].to.0 as int] {
                            assert(old_tag.contains((c, k)));
                            let q = choose|q: int| 0 <= q < old_tag.len() && old_tag[q] == (c, k);
                            if q == old_tag.len() - 1 {
                                assert(tag_ok(adj, order@, par, old_stack, old_tag, q));
                                assert(old_stack[q] == u);
                            } else {
                                assert(tag[q] == (c, k));
                            }
                        }
                    }
                }
            }
            continue;
        }
        let ghost old_order = order@;
        let ghost old_visited = visited@;
        proof {
            lemma_count_false_set(visited@, u.0 as int);
            assert(old_stack.contains(u));
        }
        visited.set(u.index(), true);
        order.push(u);
        proof {
            assert(order@.last() == u);
            if old_order.len() > 0 {
                assert(old_stack[old_stack.len() - 1] == u);
            } else {
                assert(u == source);
            }
            assert forall|v: nat| v < n && #[trigger] visited@[v as int] implies order@.contains(NodeId(v as u32)) by {
                if v == u.0 {
                    assert(order@[order@.len() - 1] == NodeId(v as u32));
                } else {
                    assert(old_visited[v as int]);
                    let i = choose|i: int| 0 <= i < old_order.len() && old_order[i] == NodeId(v as u32);
                    assert(order@[i] == NodeId(v as u32));
                }
            }
            assert(!old_order.contains(u)) by {
                if old_order.contains(u) {
                    let i = choose|i: int| 0 <= i < old_order.len() && old_order[i] == u;
                    assert(old_visited[old_order[i].0 as int]);
                }
            }
            assert forall|i: int| 0 < i < order@.len() implies #[trigger] entered_from_earlier(adj, order@, i) by {
                if i < old_order.len() {
                    assert(order@[i] == old_order[i]);
                    assert(entered_from_earlier(adj, old_order, i));
                    let j = choose|j: int| 0 <= j < i && edge_between(adj, #[trigger] old_order[j].0 as nat, old_order[i].0 as nat);
                    assert(order@[j] == old_order[j]);
                } else {
                    let k = old_stack.len() - 1;
                    assert(old_stack[k] == u);
                    assert(fed_by(adj, old_order, old_stack[k]));
                    let j = choose|j: int| 0 <= j < old_order.len() && edge_between(adj, #[trigger] old_order[j].0 as nat, u.0 as nat);
                    assert(order@[j] == old_order[j]);
                }
            }
            assert forall|k: int| 0 <= k < stack@.len() implies fed_by(adj, order@, #[trigger] stack@[k]) by {
                assert(stack@[k] == old_stack[k]);
                assert(fed_by(adj, old_order, old_stack[k]));
                let j = choose|j: int| 0 <= j < old_order.len() && edge_between(adj, #[trigger] old_order[j].0 as nat, stack@[k].0 as nat);
                assert(order@[j] == old_order[j]);
            }
            assert forall|v: int, k: int|
                0 <= v < n && 0 <= k < adj[v].len() && visited@[v] && v != u.0 implies visited@[(#[trigger] adj[v][k]).to.0 as int]
                    || stack@.contains(adj[v][k].to) by {
                let w = adj[v][k].to;
                assert(old_visited[v]);
                if !visited@[w.0 as int] {
                    assert(old_stack.contains(w));
                    let q = choose|q: int| 0 <= q < old_stack.len() && old_stack[q] == w;
                    if q == old_stack.len() - 1 {
                        assert(w == u);
                    } else {
                        assert(stack@[q] == w);
                    }
                }
            }
        }
        proof {
            let pp = old_order.len() as int;
            let old_par = par;
            let key: (int, int) = if pp > 0 {
                old_tag[old_tag.len() - 1]
            } else {
                (0int, 0int)
            };
            par = par.push(key);
            assert(order@ == old_order.push(u));
            assert(order@.take(pp) =~= old_order);
            if pp > 0 {
                let top = old_tag.len() - 1;
                assert(tag_ok(adj, old_order, old_par, old_stack, old_tag, top));
                assert(old_stack[top] == u);
                let o = key.0;
                let k = key.1;
                assert(order@[o] == old_order[o]);
                lemma_anc_push(old_par, key, o, pp - 1);
                assert forall|k2: int| 0 <= k2 < k implies order@.take(pp).contains(#[trigger] adj[order@[o].0 as int][k2].to) by {
                    let t = adj[old_order[o].0 as int][k2].to;
                    assert(t.0 < n);
                    if !old_visited[t.0 as int] {
                        assert(old_tag.contains((o, k2)));
                        let q = choose|q: int| 0 <= q < old_tag.len() && old_tag[q] == (o, k2);
                        if q < top {
                            assert(tag_below(old_tag[q], old_tag[top]));
                        }
                    }
                    assert(old_order.contains(NodeId(t.0 as nat as u32)));
                    assert(NodeId(t.0 as nat as u32) == t);
                }
                assert forall|c: int| is_anc(par, c, pp - 1) && is_anc(par, o, c) && c != o implies #[trigger] edges_into(adj, order@, c, pp) by {
                    lemma_anc_pop(old_par, key, c, pp - 1);
                    lemma_anc_le(par, c, pp - 1);
                    lemma_anc_pop(old_par, key, o, c);
                    lemma_anc_le(old_par, o, c);
                    assert(order@[c] == old_order[c]);
                    assert forall|k3: int| 0 <= k3 < adj[order@[c].0 as int].len() implies order@.take(pp).contains(#[trigger] adj[order@[c].0 as int][k3].to) by {
                        let t = adj[old_order[c].0 as int][k3].to;
                        assert(t.0 < n);
                        if !old_visited[t.0 as int] {
                            assert(old_tag.contains((c, k3)));
                            let q = choose|q: int| 0 <= q < old_tag.len() && old_tag[q] == (c, k3);
                            if q < top {
                                assert(tag_below(old_tag[q], old_tag[top]));
                            }
                        }
                        assert(old_order.contains(NodeId(t.0 as nat as u32)));
                        assert(NodeId(t.0 as nat as u32) == t);
                    }
                }
                assert(dfs_step(adj, order@, par, pp));
                assert forall|q: int| 0 <= q < tag.len() implies #[trigger] tag_ok(adj, order@, par, stack@, tag, q) by {
                    assert(tag[q] == old_tag[q] && stack@[q] == old_stack[q]);
                    assert(tag_ok(adj, old_order, old_par, old_stack, old_tag, q));
                    let o2 = tag[q].0;
                    assert(tag_below(old_tag[q], old_tag[top]));
                    lemma_anc_total(old_par, o2, o, pp - 1);
                    lemma_anc_push(old_par, key, o2, o);
                    assert(par[pp] == key);
                    assert(is_anc(par, o2, pp));
                    assert(order@[o2] == old_order[o2]);
                }
                assert forall|q: int| 0 <= q < tag.len() implies (#[trigger] tag[q]).0 < pp by {
                    assert(tag_ok(adj, old_order, old_par, old_stack, old_tag, q));
                    assert(tag[q] == old_tag[q]);
                }
            }
            assert forall|jj: int| 0 < jj < order@.len() implies #[trigger] dfs_step(adj, order@, par, jj) by {
                if jj < pp {
                    assert(dfs_step(adj, old_order, old_par, jj));
                    lemma_dfs_step_push(adj, old_order, old_par, u, key, jj);
                }
            }
            assert forall|x: int| 0 < x < par.len() implies 0 <= (#[trigger] par[x]).0 < x by {
                if x < pp {
                    assert(par[x] == old_par[x]);
                }
            }
            assert(dfs_tree(adj, order@, par));
            assert forall|c: int, k: int|
                is_anc(par, c, pp) && c != pp && 0 <= k < adj[order@[c].0 as int].len() implies visited@[(#[trigger] adj[order@[c].0 as int][k]).to.0 as int]
                    || tag.contains((c, k)) by {
                let o = key.0;
                assert(par[pp] == key);
                assert(pp > 0);
                assert(tag_ok(adj, old_order, old_par, old_stack, old_tag, old_tag.len() - 1));
                assert(0 <= o < pp);
                assert(is_anc(par, c, o));
                lemma_anc_pop(old_par, key, c, o);
                lemma_anc_le(old_par, c, o);
                lemma_anc_trans(old_par, c, o, pp - 1);
                assert(order@[c] == old_order[c]);
                let t = adj[order@[c].0 as int][k].to;
                if !old_visited[t.0 as int] {
                    assert(old_tag.contains((c, k)));
                    let q = choose|q: int| 0 <= q < old_tag.len() && old_tag[q] == (c, k);
                    if q == old_tag.len() - 1 {
                        assert(tag_ok(adj, old_order, old_par, old_stack, old_tag, q));
                    } else {
                        assert(tag[q] == (c, k));
                    }
                }
            }
        }
        let nb = g.neighbors(u);
        let m = nb.len();
        let mut j: usize = m;
        while j > 0
            invariant
                adj == g@,
                n == adj.len(),
                well_formed_adj(adj),
                s == source.0,
                s < n,
                u.0 < n,
                reachable(adj, s, u.0 as nat),
                nb@ == adj[u.0 as int],
                m == nb@.len(),
                j <= m,
                visited@.len() == n,
                visited@[u.0 as int],
                order@.len() > 0,
                order@[order@.len() - 1] == u,
                forall|k: int| 0 <= k < stack@.len() ==> (#[trigger] stack@[k]).0 < n && reachable(adj, s, stack@[k].0 as nat),
                forall|k: int| 0 <= k < stack@.len() ==> fed_by(adj, order@, #[trigger] stack@[k]),
                forall|v: int, k: int|
                    0 <= v < n && 0 <= k < adj[v].len() && visited@[v] && v != u.0 ==> visited@[(#[trigger] adj[v][k]).to.0 as int]
                        || stack@.contains(adj[v][k].to),
                forall|k: int| j <= k < m ==> visited@[(#[trigger] adj[u.0 as int][k]).to.0 as int]
                    || stack@.contains(adj[u.0 as int][k].to),
                par.len() == order@.len(),
                dfs_tree(adj, order@, par),
                tag.len() == stack@.len(),
                forall|q: int| 0 <= q < tag.len() ==> #[trigger] tag_ok(adj, order@, par, stack@, tag, q),
                forall|q1: int, q2: int| 0 <= q1 < q2 < tag.len() ==> tag_below(#[trigger] tag[q1], #[trigger] tag[q2]),
                forall|q: int| 0 <= q < tag.len() ==> (#[trigger] tag[q]).0 <= order@.len() - 1 && (tag[q].0 == order@.len() - 1 ==> tag[q].1 >= j),
                forall|c: int, k: int|
                    is_anc(par, c, order@.len() - 1) && c != order@.len() - 1 && 0 <= k < adj[order@[c].0 as int].len() ==> visited@[(#[trigger] adj[order@[c].0 as int][k]).to.0 as int]
                        || tag.contains((c, k)),
                forall|k: int| j <= k < m ==> visited@[(#[trigger] adj[u.0 as int][k]).to.0 as int]
                    || tag.contains((order@.len() - 1, k)),
            decreases j,
        {
            j = j - 1;
            let e = nb[j];
            let t = e.to.index();
            proof {
                assert(adj[u.0 as int][j as int] == e);
                assert(has_edge(adj, e)) by {
                    assert(adj[e.from.0 as int][j as int] == e);
                }
            }
            if !visited[t] {
                let ghost prev = stack@;
                stack.push(e.to);
                proof {
                    let p = choose|p: Seq<Edge>| #[trigger] is_walk(adj, s, u.0 as nat, p);
                    lemma_walk_push(adj, s, u.0 as nat, p, e);
                    assert(is_walk(adj, s, t as nat, p.push(e)));
                    assert(edge_between(adj, order@[order@.len() - 1].0 as nat, t as nat));
                    assert(stack@[stack@.len() - 1] == e.to);
                    assert forall|k: int| 0 <= k < stack@.len() implies fed_by(adj, order@, #[trigger] stack@[k]) by {
                        if k < prev.len() {
                            assert(stack@[k] == prev[k]);
                        } else {
                            assert(edge_between(adj, order@[order@.len() - 1].0 as nat, stack@[k].0 as nat));
                        }
                    }
                    assert forall|x: NodeId| prev.contains(x) implies stack@.contains(x) by {
                        let k = choose|k: int| 0 <= k < prev.len() && prev[k] == x;
                        assert(stack@[k] == x);
                    }
                    let pp = order@.len() - 1;
                    let old_tag2 = tag;
                    tag = tag.push((pp, j as int));
                    assert(order@[pp] == u);
                    assert forall|q: int| 0 <= q < tag.len() implies #[trigger] tag_ok(adj, order@, par, stack@, tag, q) by {
                        if q < old_tag2.len() {
                            assert(tag[q] == old_tag2[q] && stack@[q] == prev[q]);
                            assert(tag_ok(adj, order@, par, prev, old_tag2, q));
                        }
                    }
                    assert forall|q1: int, q2: int| 0 <= q1 < q2 < tag.len() implies tag_below(#[trigger] tag[q1], #[trigger] tag[q2]) by {
                        assert(tag[q1] == old_tag2[q1]);
                        if q2 < old_tag2.len() {
                            assert(tag[q2] == old_tag2[q2]);
                        }
                    }
                    assert forall|q: int| 0 <= q < tag.len() implies (#[trigger] tag[q]).0 <= order@.len() - 1 && (tag[q].0 == order@.len() - 1 ==> tag[q].1 >= j) by {
                        if q < old_tag2.len() {
                            assert(tag[q] == old_tag2[q]);
                        }
                    }
                    assert forall|c: int, k: int|
                        is_anc(par, c, order@.len() - 1) && c != order@.len() - 1 && 0 <= k < adj[order@[c].0 as int].len() implies visited@[(#[trigger] adj[order@[c].0 as int][k]).to.0 as int]
                            || tag.contains((c, k)) by {
                        if old_tag2.contains((c, k)) {
                            let q = choose|q: int| 0 <= q < old_tag2.len() && old_tag2[q] == (c, k);
                            assert(tag[q] == (c, k));
                        }
                    }
                    assert forall|k: int| j <= k < m implies visited@[(#[trigger] adj[u.0 as int][k]).to.0 as int]
                        || tag.contains((order@.len() - 1, k)) by {
                        if k == j {
                            assert(tag[tag.len() - 1] == (pp, j as int));
                        } else if old_tag2.contains((pp, k)) {
                            let q = choose|q: int| 0 <= q < old_tag2.len() && old_tag2[q] == (pp, k);
                            assert(tag[q] == (pp, k));
                        }
                    }
                }
            }
        }
    }
    proof {
        assert(dfs_tree(adj, order@, par));
        let closed = |x: nat| x < n && visited@[x as int];
        assert forall|e: Edge| has_edge(adj, e) && #[trigger] closed(e.from.0 as nat) implies closed(e.to.0 as nat) by {
            let x = e.from.0 as nat;
            let k = choose|k: int| 0 <= k < adj[x as int].len() && adj[x as int][k] == e;
            assert(adj[x as int][k] == e);
        }
        assert(visited@[s as int]) by {
            assert(order@[0] == source);
        }
        assert forall|v: nat| #[trigger] reachable(adj, s, v) implies order@.contains(NodeId(v as u32)) by {
            let p = choose|p: Seq<Edge>| #[trigger] is_walk(adj, s, v, p);
            lemma_closed_reach(adj, s, closed, v, p);
        }
    }
    order
}

/// The measure that every improvement of a tentative distance lowers.
spec fn slack(o: Option<u32>) -> nat {
    match o {
        None => u32::MAX as nat + 1,
        Some(c) => c as nat,
    }
}

/// Sum of the slacks of all tentative distances.
spec fn total_slack(d: Seq<Option<u32>>) -> nat
    decreases d.len(),
{
    if d.len() == 0 {
        0
    } else {
        total_slack(d.drop_last()) + slack(d.last())
    }
}

proof fn lemma_total_slack_update(d: Seq<Option<u32>>, i: int, x: Option<u32>)
    requires
        0 <= i < d.len(),
        slack(x) < slack(d[i]),
    ensures
        total_slack(d.update(i, x)) + slack(d[i]) == total_slack(d) + slack(x),
    decreases d.len(),
{
    let d2 = d.update(i, x);
    if i == d.len() - 1 {
        assert(d2.drop_last() =~= d.drop_last());
    } else {
        lemma_total_slack_update(d.drop_last(), i, x);
        assert(d2.drop_last() =~= d.drop_last().update(i, x));
    }
}

/// Edge `e` cannot improve the tentative distance of its end, given distance
/// `c` at its start.
spec fn edge_relaxed(d: Seq<Option<u32>>, e: Edge, c: nat) -> bool {
    &&& d[e.to.0 as int] is Some
    &&& d[e.to.0 as int]->0 <= sat_add(c, e.weight as nat)
}

/// No edge leaving `v` can improve a tentative distance.
spec fn relaxed(adj: Seq<Seq<Edge>>, d: Seq<Option<u32>>, v: int) -> bool {
    &&& d[v] is Some
    &&& forall|j: int| 0 <= j < adj[v].len() ==> edge_relaxed(d, #[trigger] adj[v][j], d[v]->0 as nat)
}

/// Capping is monotone in its first argument.
proof fn lemma_sat_add_mono(a: nat, b: nat, w: nat)
    requires
        a <= b,
    ensures
        sat_add(a, w) <= sat_add(b, w),
{
}

/// Once every edge is relaxed, tentative distances are no heavier than
/// any walk.
proof fn lemma_relaxed_optimal(adj: Seq<Seq<Edge>>, s: nat, d: Seq<Option<u32>>, v: nat, p: Seq<Edge>)
    requires
        well_formed_adj(adj),
        s < adj.len(),
        d.len() == adj.len(),
        d[s as int] == Some(0u32),
        forall|x: int| 0 <= x < adj.len() && #[trigger] d[x] is Some ==> relaxed(adj, d, x),
        is_walk(adj, s, v, p),
    ensures
        v < adj.len(),
        d[v as int] is Some,
        d[v as int]->0 <= walk_weight(p),
    decreases p.len(),
{
    if p.len() > 0 {
        lemma_walk_drop_last(adj, s, v, p);
        let e = p.last();
        let u = e.from.0 as nat;
        lemma_relaxed_optimal(adj, s, d, u, p.drop_last());
        assert(has_edge(adj, e));
        let j = choose|j: int| 0 <= j < adj[u as int].len() && adj[u as int][j] == e;
        assert(adj[u as int][j] == e);
        assert(edge_relaxed(d, adj[u as int][j], d[u as int]->0 as nat));
        lemma_sat_add_mono(d[u as int]->0 as nat, walk_weight(p.drop_last()), e.weight as nat);
    }
}

/// Index of the least `(distance, node)` pair, ordered by distance and then
/// by node id.
fn min_index(heap: &Vec<(u32, NodeId)>) -> (i: usize)
    requires
        heap@.len() > 0,
    ensures
        i < heap@.len(),
        forall|k: int|
            0 <= k < heap@.len() ==> heap@[i as int].0 < (#[trigger] heap@[k]).0 || (heap@[i as int].0
                == heap@[k].0 && heap@[i as int].1.0 <= heap@[k].1.0),
{
    let mut best: usize = 0;
    let mut k: usize = 1;
    while k < heap.len()
        invariant
            best < k <= heap@.len(),
            forall|q: int|
                0 <= q < k ==> heap@[best as int].0 < (#[trigger] heap@[q]).0 || (heap@[best as int].0
                    == heap@[q].0 && heap@[best as int].1.0 <= heap@[q].1.0),
        decreases heap@.len() - k,
    {
        if heap[k].0 < heap[best].0 || (heap[k].0 == heap[best].0 && heap[k].1.0 < heap[best].1.0) {
            best = k;
        }
        k = k + 1;
    }
    best
}

/// Single-source shortest-path distances (Dijkstra). Entry `v` is `Some`
/// exactly when `v` is reachable from `source`, and then holds the least
/// walk weight, where walk weights add up with saturation at `u32::MAX`.
/// The source's own entry is `Some(0)`.
#[verifier::rlimit(100)]
pub fn dijkstra(g: &Graph, source: NodeId) -> (dist: Vec<Option<u32>>)
    requires
        source.0 < g@.len(),
    ensures
        dist@.len() == g@.len(),
        dist@[source.0 as int] == Some(0u32),
        forall|v: nat| v < g@.len() ==> (#[trigger] dist@[v as int] is Some <==> reachable(g@, source.0 as nat, v)),
        forall|v: nat|
            v < g@.len() && #[trigger] dist@[v as int] is Some ==> walk_cost(g@, source.0 as nat, v, dist@[v as int]->0 as nat)
                && no_cheaper_walk(g@, source.0 as nat, v, dist@[v as int]->0 as nat),
{
    proof {
        use_type_invariant(g);
        g.lemma_inv();
    }
    let ghost adj = g@;
    let ghost s = source.0 as nat;
    let n = g.node_count();
    let mut dist: Vec<Option<u32>> = filled(None, n);
    let mut heap: Vec<(u32, NodeId)> = Vec::new();
    dist.set(source.index(), Some(0));
    heap.push((0, source));
    proof {
        lemma_walk_empty(adj, s);
        assert(walk_weight(Seq::<Edge>::empty()) == 0);
        assert(walk_cost(adj, s, s, 0));
        assert(heap@[0] == (0u32, NodeId(s as u32)));
    }
    loop
        invariant
            adj == g@,
            n == adj.len(),
            well_formed_adj(adj),
            s == source.0,
            s < n,
            dist@.len() == n,
            dist@[s as int] == Some(0u32),
            forall|v: int| 0 <= v < n && #[trigger] dist@[v] is Some ==> walk_cost(adj, s, v as nat, dist@[v]->0 as nat),
            forall|k: int| 0 <= k < heap@.len() ==> (#[trigger] heap@[k]).1.0 < n
                && walk_cost(adj, s, heap@[k].1.0 as nat, heap@[k].0 as nat)
                && dist@[heap@[k].1.0 as int] is Some
                && dist@[heap@[k].1.0 as int]->0 <= heap@[k].0,
            forall|v: int| 0 <= v < n && #[trigger] dist@[v] is Some ==> heap@.contains((dist@[v]->0, NodeId(v as u32)))
                || relaxed(adj, dist@, v),
        ensures
            heap@.len() == 0,
        decreases 2 * total_slack(dist@) + heap@.len(),
    {
        if heap.len() == 0 {
            break;
        }
        let ghost measure_before = 2 * total_slack(dist@) + heap@.len();
        let ghost old_heap = heap@;
        let idx = min_index(&heap);
        let (d, u) = heap.swap_remove(idx);
        let ghost c = dist@[u.0 as int]->0;
        proof {
            assert(old_heap[idx as int] == (d, u));
            assert forall|x: (u32, NodeId)| old_heap.contains(x) && x != (d, u) implies heap@.contains(x) by {
                let k = choose|k: int| 0 <= k < old_heap.len() && old_heap[k] == x;
                if k == old_heap.len() - 1 {
                    assert(heap@[idx as int] == x);
                } else {
                    assert(heap@[k] == x);
                }
            }
            assert forall|k: int| 0 <= k < heap@.len() implies (#[trigger] heap@[k]).1.0 < n
                && walk_cost(adj, s, heap@[k].1.0 as nat, heap@[k].0 as nat)
                && dist@[heap@[k].1.0 as int] is Some
                && dist@[heap@[k].1.0 as int]->0 <= heap@[k].0 by {
                if k == idx {
                    assert(heap@[k] == old_heap[old_heap.len() - 1]);
                } else {
                    assert(heap@[k] == old_heap[k]);
                }
            }
            assert(walk_cost(adj, s, u.0 as nat, d as nat));
        }
        let nb = g.neighbors(u);
        let m = nb.len();
        let mut j: usize = 0;
        while j < m
            invariant
                adj == g@,
                n == adj.len(),
                well_formed_adj(adj),
                s == source.0,
                s < n,
                u.0 < n,
                nb@ == adj[u.0 as int],
                m == nb@.len(),
                j <= m,
                dist@.len() == n,
                dist@[s as int] == Some(0u32),
                dist@[u.0 as int] == Some(c),
                c <= d,
                walk_cost(adj, s, u.0 as nat, d as nat),
                2 * total_slack(dist@) + heap@.len() + 1 <= measure_before,
                forall|v: int| 0 <= v < n && #[trigger] dist@[v] is Some ==> walk_cost(adj, s, v as nat, dist@[v]->0 as nat),
                forall|k: int| 0 <= k < heap@.len() ==> (#[trigger] heap@[k]).1.0 < n
                    && walk_cost(adj, s, heap@[k].1.0 as nat, heap@[k].0 as nat)
                    && dist@[heap@[k].1.0 as int] is Some
                    && dist@[heap@[k].1.0 as int]->0 <= heap@[k].0,
                forall|v: int| 0 <= v < n && v != u.0 && #[trigger] dist@[v] is Some ==> heap@.contains((dist@[v]->0, NodeId(v as u32)))
                    || relaxed(adj, dist@, v),
                c < d ==> heap@.contains((c, u)) || relaxed(adj, dist@, u.0 as int),
                c == d ==> forall|k: int| 0 <= k < j ==> edge_relaxed(dist@, #[trigger] adj[u.0 as int][k], d as nat),
            decreases m - j,
        {
            let e = nb[j];
            let t = e.to.index();
            let next = d.saturating_add(e.weight);
            let cur = dist[t];
            proof {
                assert(adj[u.0 as int][j as int] == e);
                assert(has_edge(adj, e)) by {
                    assert(adj[e.from.0 as int][j as int] == e);
                }
            }
            let improves = match cur {
                None => true,
                Some(cv) => next < cv,
            };
            if improves {
                let ghost old_dist = dist@;
                let ghost old_heap2 = heap@;
                proof {
                    lemma_total_slack_update(dist@, t as int, Some(next));
                    let p = choose|p: Seq<Edge>| #[trigger] is_walk(adj, s, u.0 as nat, p) && walk_weight(p) == d as nat;
                    lemma_walk_push(adj, s, u.0 as nat, p, e);
                    assert(p.push(e).drop_last() =~= p);
                    assert(walk_weight(p.push(e)) == next as nat);
                    assert(is_walk(adj, s, t as nat, p.push(e)));
                    if t == u.0 {
                        assert(next >= d);
                    }
                }
                dist.set(t, Some(next));
                heap.push((next, e.to));
                proof {
                    assert(heap@[heap@.len() - 1] == (next, e.to));
                    assert(e.to == NodeId(t as u32));
                    assert forall|x: (u32, NodeId)| old_heap2.contains(x) implies heap@.contains(x) by {
                        let k = choose|k: int| 0 <= k < old_heap2.len() && old_heap2[k] == x;
                        assert(heap@[k] == x);
                    }
                    assert forall|k: int| 0 <= k < heap@.len() implies (#[trigger] heap@[k]).1.0 < n
                        && walk_cost(adj, s, heap@[k].1.0 as nat, heap@[k].0 as nat)
                        && dist@[heap@[k].1.0 as int] is Some
                        && dist@[heap@[k].1.0 as int]->0 <= heap@[k].0 by {
                        if k < old_heap2.len() {
                            assert(heap@[k] == old_heap2[k]);
                        }
                    }
                    assert forall|v: int| 0 <= v < n && relaxed(adj, old_dist, v) && v != t implies relaxed(adj, dist@, v) by {
                        assert forall|q: int| 0 <= q < adj[v].len() implies edge_relaxed(dist@, #[trigger] adj[v][q], dist@[v]->0 as nat) by {
                            assert(edge_relaxed(old_dist, adj[v][q], old_dist[v]->0 as nat));
                        }
                    }
                    if c == d {
                        assert forall|k: int| 0 <= k < j + 1 implies edge_relaxed(dist@, #[trigger] adj[u.0 as int][k], d as nat) by {
                            if k < j {
                                assert(edge_relaxed(old_dist, adj[u.0 as int][k], d as nat));
                            }
                        }
                    }
                }
            } else {
                proof {
                    if c == d {
                        assert forall|k: int| 0 <= k < j + 1 implies edge_relaxed(dist@, #[trigger] adj[u.0 as int][k], d as nat) by {
                            if k == j {
                                assert(adj[u.0 as int][k] == e);
                            }
                        }
                    }
                }
            }
            j = j + 1;
        }
        proof {
            if c == d {
                assert(relaxed(adj, dist@, u.0 as int));
            }
        }
    }
    proof {
        assert forall|x: int| 0 <= x < adj.len() && #[trigger] dist@[x] is Some implies relaxed(adj, dist@, x) by {
            if !relaxed(adj, dist@, x) {
                assert(heap@.contains((dist@[x]->0, NodeId(x as u32))));
            }
        }
        assert forall|v: nat| v < n implies (#[trigger] dist@[v as int] is Some <==> reachable(adj, s, v)) by {
            if dist@[v as int] is Some {
                let p = choose|p: Seq<Edge>| #[trigger] is_walk(adj, s, v, p) && walk_weight(p) == dist@[v as int]->0 as nat;
                assert(is_walk(adj, s, v, p));
            }
            if reachable(adj, s, v) {
                let p = choose|p: Seq<Edge>| #[trigger] is_walk(adj, s, v, p);
                lemma_relaxed_optimal(adj, s, dist@, v, p);
            }
        }
        assert forall|v: nat| v < n && #[trigger] dist@[v as int] is Some implies no_cheaper_walk(adj, s, v, dist@[v as int]->0 as nat) by {
            assert forall|p: Seq<Edge>| #[trigger] is_walk(adj, s, v, p) implies dist@[v as int]->0 <= walk_weight(p) by {
                lemma_relaxed_optimal(adj, s, dist@, v, p);
            }
        }
    }
    dist
}

} // verus!
