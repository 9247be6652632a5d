//! Community detection: weakly-connected components and strongly-connected
//! components (Kosaraju), and the partition check on component lists.

use vstd::prelude::*;
use crate::graph::{
    Edge, Graph, NodeId, lemma_edge_in_transposed, lemma_transposed_edge, reversed, transposed,
    well_formed_adj,
};
use crate::paths::{
    count_false, filled, has_edge, lemma_count_false_set, lemma_wc_closed, lemma_wc_linked,
    lemma_wc_refl, lemma_wc_symm, lemma_wc_trans, linked, weakly_connected, reachable,
    lemma_reach_prepend, lemma_walk_empty, lemma_count_false_all, mutual, lemma_reach_trans,
    lemma_reach_edge, lemma_leave, lemma_mutual_trans, lemma_back_closed, is_walk,
};

verus! {

/// The component lists as sequences of node ids.
pub open spec fn comps_view(comps: Seq<Vec<NodeId>>) -> Seq<Seq<NodeId>> {
    comps.map_values(|c: Vec<NodeId>| c@)
}

/// Every listed node is a node of a graph with `n` nodes, every node is
/// listed, and no node is listed twice.
pub open spec fn is_partition(n: nat, comps: Seq<Seq<NodeId>>) -> bool {
    &&& forall|i: int, a: int|
        0 <= i < comps.len() && 0 <= a < comps[i].len() ==> (#[trigger] comps[i][a]).0 < n
    &&& forall|v: nat| v < n ==> #[trigger] listed(comps, v)
    &&& forall|i: int, a: int, j: int, b: int|
        0 <= i < comps.len() && 0 <= a < comps[i].len() && 0 <= j < comps.len() && 0 <= b
            < comps[j].len() && #[trigger] comps[i][a] == #[trigger] comps[j][b] ==> i == j && a == b
}

/// Node `v` occurs in some component.
pub open spec fn listed(comps: Seq<Seq<NodeId>>, v: nat) -> bool {
    exists|i: int, a: int|
        0 <= i < comps.len() && 0 <= a < comps[i].len() && (#[trigger] comps[i][a]).0 == v
}

/// Each component is nonempty and lists its nodes by increasing id, and the
/// components are ordered by their smallest node.
pub open spec fn sorted_components(comps: Seq<Seq<NodeId>>) -> bool {
    &&& forall|i: int| 0 <= i < comps.len() ==> (#[trigger] comps[i]).len() > 0
    &&& forall|i: int, a: int, b: int|
        0 <= i < comps.len() && 0 <= a < b < comps[i].len() ==> (#[trigger] comps[i][a]).0
            < (#[trigger] comps[i][b]).0
    &&& forall|i: int, j: int|
        0 <= i < j < comps.len() ==> (#[trigger] comps[i])[0].0 < (#[trigger] comps[j])[0].0
}

/// Two listed nodes share a component exactly when `related` holds of them.
pub open spec fn grouped_by(
    comps: Seq<Seq<NodeId>>,
    related: spec_fn(nat, nat) -> bool,
) -> bool {
    forall|i: int, a: int, j: int, b: int|
        0 <= i < comps.len() && 0 <= a < comps[i].len() && 0 <= j < comps.len() && 0 <= b
            < comps[j].len() ==> (related(
            (#[trigger] comps[i][a]).0 as nat,
            (#[trigger] comps[j][b]).0 as nat,
        ) <==> i == j)
}

/// Weakly-connected components: the nodes, grouped by whether edges
/// followed in either direction join them. Each component lists its nodes
/// by increasing id, and the components are ordered by smallest node.
pub fn connected_components(g: &Graph) -> (comps: Vec<Vec<NodeId>>)
    ensures
        is_partition(g@.len(), comps_view(comps@)),
        sorted_components(comps_view(comps@)),
        grouped_by(comps_view(comps@), |a: nat, b: nat| weakly_connected(g@, a, b)),
{
    proof {
        use_type_invariant(g);
        g.lemma_inv();
    }
    let ghost adj = g@;
    let n = g.node_count();
    let t = g.transpose();
    let ghost tadj = t@;
    let mut comp_of: Vec<usize> = filled(usize::MAX, n);
    let ghost mut seeds: Seq<nat> = Seq::empty();
    let mut count: usize = 0;
    let mut v: usize = 0;
    while v < n
        invariant
            adj == g@,
            tadj == t@,
            tadj == transposed(adj),
            n == adj.len(),
            n <= u32::MAX,
            well_formed_adj(adj),
            v <= n,
            comp_of@.len() == n,
            seeds.len() == count,
            count <= v,
            forall|x: int| 0 <= x < n ==> #[trigger] comp_of@[x] == usize::MAX || comp_of@[x] < count,
            forall|x: int| 0 <= x < v ==> #[trigger] comp_of@[x] != usize::MAX,
            forall|c: int| 0 <= c < count ==> #[trigger] seeds[c] < v && comp_of@[seeds[c] as int] == c,
            forall|c1: int, c2: int| 0 <= c1 < c2 < count ==> #[trigger] seeds[c1] < #[trigger] seeds[c2],
            forall|x: int|
                0 <= x < n && #[trigger] comp_of@[x] != usize::MAX ==> seeds[comp_of@[x] as int] <= x
                    && weakly_connected(adj, seeds[comp_of@[x] as int], x as nat),
            forall|x: nat, y: nat|
                x < n && comp_of@[x as int] != usize::MAX && #[trigger] linked(adj, x, y) ==> y < n
                    && comp_of@[y as int] == comp_of@[x as int],
        decreases n - v,
    {
        if comp_of[v] == usize::MAX {
            let cid = count;
            let mut stack: Vec<NodeId> = Vec::new();
            stack.push(NodeId(v as u32));
            let ghost mut labeled: Seq<bool> = Seq::new(n as nat, |x: int| comp_of@[x] != usize::MAX);
            proof {
                lemma_wc_refl(adj, v as nat);
                assert(stack@[0] == NodeId(v as u32));
            }
            loop
                invariant
                    adj == g@,
                    tadj == t@,
                    tadj == transposed(adj),
                    n == adj.len(),
                    n <= u32::MAX,
                    well_formed_adj(adj),
                    v < n,
                    cid == count,
                    count <= v,
                    comp_of@.len() == n,
                    labeled.len() == n,
                    seeds.len() == count,
                    forall|x: int| 0 <= x < n ==> (#[trigger] labeled[x] <==> comp_of@[x] != usize::MAX),
                    forall|x: int| 0 <= x < n ==> #[trigger] comp_of@[x] == usize::MAX || comp_of@[x] <= cid,
                    forall|x: int| 0 <= x < v ==> #[trigger] comp_of@[x] != usize::MAX && comp_of@[x] < cid,
                    forall|c: int| 0 <= c < count ==> #[trigger] seeds[c] < v && comp_of@[seeds[c] as int] == c,
                    forall|c1: int, c2: int| 0 <= c1 < c2 < count ==> #[trigger] seeds[c1] < #[trigger] seeds[c2],
                    forall|x: int|
                        0 <= x < n && #[trigger] comp_of@[x] != usize::MAX && comp_of@[x] < cid ==> seeds[comp_of@[x] as int] <= x
                            && weakly_connected(adj, seeds[comp_of@[x] as int], x as nat),
                    forall|x: int|
                        0 <= x < n && #[trigger] comp_of@[x] == cid ==> v <= x && weakly_connected(adj, v as nat, x as nat),
                    forall|x: nat, y: nat|
                        x < n && comp_of@[x as int] != usize::MAX && comp_of@[x as int] < cid && #[trigger] linked(adj, x, y) ==> y < n
                            && comp_of@[y as int] == comp_of@[x as int],
                    forall|x: nat, y: nat|
                        x < n && comp_of@[x as int] == cid && #[trigger] linked(adj, x, y) ==> y < n
                            && (comp_of@[y as int] == cid || stack@.contains(NodeId(y as u32))),
                    forall|k: int| 0 <= k < stack@.len() ==> (#[trigger] stack@[k]).0 < n
                        && weakly_connected(adj, v as nat, stack@[k].0 as nat)
                        && (comp_of@[stack@[k].0 as int] == usize::MAX || comp_of@[stack@[k].0 as int] == cid),
                    comp_of@[v as int] == cid || stack@.contains(NodeId(v as u32)),
                ensures
                    stack@.len() == 0,
                decreases count_false(labeled), stack@.len(),
            {
                let ghost old_stack = stack@;
                let node = match stack.pop() {
                    None => break,
                    Some(node) => node,
                };
                proof {
                    assert(old_stack.last() == node);
                    assert(stack@ =~= old_stack.drop_last());
                    assert forall|x: NodeId| old_stack.contains(x) && x != node implies stack@.contains(x) by {
                        let k = choose|k: int| 0 <= k < old_stack.len() && old_stack[k] == x;
                        assert(stack@[k] == x);
                    }
                    assert forall|k: int| 0 <= k < stack@.len() implies (#[trigger] stack@[k]).0 < n
                        && weakly_connected(adj, v as nat, stack@[k].0 as nat)
                        && (comp_of@[stack@[k].0 as int] == usize::MAX || comp_of@[stack@[k].0 as int] == cid) by {
                        assert(stack@[k] == old_stack[k]);
                    }
                }
                let x = node.index();
                if comp_of[x] != usize::MAX {
                    continue;
                }
                proof {
                    lemma_count_false_set(labeled, x as int);
                    labeled = labeled.update(x as int, true);
                }
                let ghost old_comp = comp_of@;
                comp_of.set(x, cid);
                proof {
                    assert forall|a: nat, y: nat|
                        a < n && a != x && comp_of@[a as int] == cid && #[trigger] linked(adj, a, y) implies y < n
                            && (comp_of@[y as int] == cid || stack@.contains(NodeId(y as u32))) by {
                        assert(old_comp[a as int] == cid);
                        if !(old_comp[y as int] == cid) {
                            assert(old_stack.contains(NodeId(y as u32)));
                            if NodeId(y as u32) != node {
                                assert(stack@.contains(NodeId(y as u32)));
                            }
                        }
                    }
                    if v != x && old_comp[v as int] != cid {
                        assert(old_stack.contains(NodeId(v as u32)));
                        assert(NodeId(v as u32) != node);
                    }
                    assert forall|a: nat, y: nat|
                        a < n && comp_of@[a as int] != usize::MAX && comp_of@[a as int] < cid && #[trigger] linked(adj, a, y) implies y < n
                            && comp_of@[y as int] == comp_of@[a as int] by {
                        if y == x {
                            // `a` would have pulled `x` into its own component
                            let e = choose|e: Edge| #[trigger] has_edge(adj, e) && ((e.from.0 == a && e.to.0 == y) || (e.from.0 == y && e.to.0 == a));
                            assert(linked(adj, y, a));
                        }
                    }
                }
                let nb = g.neighbors(node);
                let m = nb.len();
                let mut j: usize = 0;
                while j < m
                    invariant
                        adj == g@,
                        n == adj.len(),
                        n <= u32::MAX,
                        well_formed_adj(adj),
                        v < n,
                        x < n,
                        node.0 == x,
                        nb@ == adj[x as int],
                        m == nb@.len(),
                        j <= m,
                        cid == count,
                        comp_of@.len() == n,
                        comp_of@[x as int] == cid,
                        weakly_connected(adj, v as nat, x as nat),
                        forall|z: int| 0 <= z < n ==> #[trigger] comp_of@[z] == usize::MAX || comp_of@[z] <= cid,
                        forall|a: nat, y: nat|
                            a < n && comp_of@[a as int] != usize::MAX && comp_of@[a as int] < cid && #[trigger] linked(adj, a, y) ==> y < n
                                && comp_of@[y as int] == comp_of@[a as int],
                        forall|a: nat, y: nat|
                            a < n && a != x && comp_of@[a as int] == cid && #[trigger] linked(adj, a, y) ==> y < n
                                && (comp_of@[y as int] == cid || stack@.contains(NodeId(y as u32))),
                        comp_of@[v as int] == cid || stack@.contains(NodeId(v as u32)),
                        forall|k: int| 0 <= k < j ==> comp_of@[(#[trigger] adj[x as int][k]).to.0 as int] == cid
                            || stack@.contains(adj[x as int][k].to),
                        forall|k: int| 0 <= k < stack@.len() ==> (#[trigger] stack@[k]).0 < n
                            && weakly_connected(adj, v as nat, stack@[k].0 as nat)
                            && (comp_of@[stack@[k].0 as int] == usize::MAX || comp_of@[stack@[k].0 as int] == cid),
                    decreases m - j,
                {
                    let e = nb[j];
                    let y = e.to.index();
                    proof {
                        assert(adj[x as int][j as int] == e);
                        assert(has_edge(adj, e)) by {
                            assert(adj[e.from.0 as int][j as int] == e);
                        }
                        assert(linked(adj, x as nat, y as nat));
                        lemma_wc_linked(adj, x as nat, y as nat);
                        lemma_wc_trans(adj, v as nat, x as nat, y as nat);
                        if comp_of@[y as int] != usize::MAX && comp_of@[y as int] < cid {
                            assert(linked(adj, y as nat, x as nat));
                        }
                    }
                    let ghost prev = stack@;
                    if comp_of[y] == usize::MAX {
                        stack.push(e.to);
                        proof {
                            assert(stack@[stack@.len() - 1] == e.to);
                            assert forall|z: NodeId| prev.contains(z) implies stack@.contains(z) by {
                                let k = choose|k: int| 0 <= k < prev.len() && prev[k] == z;
                                assert(stack@[k] == z);
                            }
                            assert forall|k: int| 0 <= k < stack@.len() implies (#[trigger] stack@[k]).0 < n
                                && weakly_connected(adj, v as nat, stack@[k].0 as nat)
                                && (comp_of@[stack@[k].0 as int] == usize::MAX || comp_of@[stack@[k].0 as int] == cid) by {
                                if k < prev.len() {
                                    assert(stack@[k] == prev[k]);
                                }
                            }
                        }
                    }
                    proof {
                        assert forall|z: NodeId| prev.contains(z) implies stack@.contains(z) by {
                            let k = choose|k: int| 0 <= k < prev.len() && prev[k] == z;
                            assert(stack@[k] == z);
                        }
                        assert forall|k: int| 0 <= k < j + 1 implies comp_of@[(#[trigger] adj[x as int][k]).to.0 as int] == cid
                            || stack@.contains(adj[x as int][k].to) by {
                            if k == j {
                                assert(adj[x as int][k] == e);
                                if comp_of@[y as int] == usize::MAX {
                                    assert(stack@[stack@.len() - 1] == e.to);
                                }
                            }
                        }
                    }
                    j = j + 1;
                }
                let tb = t.neighbors(node);
                let tm = tb.len();
                let mut j: usize = 0;
                while j < tm
                    invariant
                        adj == g@,
                        tadj == t@,
                        tadj == transposed(adj),
                        n == adj.len(),
                        n <= u32::MAX,
                        well_formed_adj(adj),
                        v < n,
                        x < n,
                        node.0 == x,
                        tb@ == tadj[x as int],
                        tm == tb@.len(),
                        j <= tm,
                        cid == count,
                        comp_of@.len() == n,
                        comp_of@[x as int] == cid,
                        weakly_connected(adj, v as nat, x as nat),
                        forall|z: int| 0 <= z < n ==> #[trigger] comp_of@[z] == usize::MAX || comp_of@[z] <= cid,
                        forall|a: nat, y: nat|
                            a < n && comp_of@[a as int] != usize::MAX && comp_of@[a as int] < cid && #[trigger] linked(adj, a, y) ==> y < n
                                && comp_of@[y as int] == comp_of@[a as int],
                        forall|a: nat, y: nat|
                            a < n && a != x && comp_of@[a as int] == cid && #[trigger] linked(adj, a, y) ==> y < n
                                && (comp_of@[y as int] == cid || stack@.contains(NodeId(y as u32))),
                        comp_of@[v as int] == cid || stack@.contains(NodeId(v as u32)),
                        forall|k: int| 0 <= k < adj[x as int].len() ==> comp_of@[(#[trigger] adj[x as int][k]).to.0 as int] == cid
                            || stack@.contains(adj[x as int][k].to),
                        forall|k: int| 0 <= k < j ==> comp_of@[(#[trigger] tadj[x as int][k]).to.0 as int] == cid
                            || stack@.contains(tadj[x as int][k].to),
                        forall|k: int| 0 <= k < stack@.len() ==> (#[trigger] stack@[k]).0 < n
                            && weakly_connected(adj, v as nat, stack@[k].0 as nat)
                            && (comp_of@[stack@[k].0 as int] == usize::MAX || comp_of@[stack@[k].0 as int] == cid),
                    decreases tm - j,
                {
                    let f = tb[j];
                    let y = f.to.index();
                    proof {
                        assert(tadj[x as int][j as int] == f);
                        lemma_transposed_edge(adj, x as int, j as int);
                        let (i, k) = choose|i: int, k: int|
                            0 <= i < adj.len() && 0 <= k < adj[i].len() && #[trigger] adj[i][k] == reversed(f);
                        assert(adj[i][k] == reversed(f));
                        assert(has_edge(adj, reversed(f))) by {
                            assert(adj[reversed(f).from.0 as int][k] == reversed(f));
                        }
                        assert(y < n);
                        assert(linked(adj, x as nat, y as nat));
                        lemma_wc_linked(adj, x as nat, y as nat);
                        lemma_wc_trans(adj, v as nat, x as nat, y as nat);
                        if comp_of@[y as int] != usize::MAX && comp_of@[y as int] < cid {
                            assert(linked(adj, y as nat, x as nat));
                        }
                    }
                    let ghost prev = stack@;
                    if comp_of[y] == usize::MAX {
                        stack.push(f.to);
                        proof {
                            assert(stack@[stack@.len() - 1] == f.to);
                            assert forall|z: NodeId| prev.contains(z) implies stack@.contains(z) by {
                                let k = choose|k: int| 0 <= k < prev.len() && prev[k] == z;
                                assert(stack@[k] == z);
                            }
                            assert forall|k: int| 0 <= k < stack@.len() implies (#[trigger] stack@[k]).0 < n
                                && weakly_connected(adj, v as nat, stack@[k].0 as nat)
                                && (comp_of@[stack@[k].0 as int] == usize::MAX || comp_of@[stack@[k].0 as int] == cid) by {
                                if k < prev.len() {
                                    assert(stack@[k] == prev[k]);
                                }
                            }
                        }
                    }
                    proof {
                        assert forall|z: NodeId| prev.contains(z) implies stack@.contains(z) by {
                            let k = choose|k: int| 0 <= k < prev.len() && prev[k] == z;
                            assert(stack@[k] == z);
                        }
                        assert forall|k: int| 0 <= k < j + 1 implies comp_of@[(#[trigger] tadj[x as int][k]).to.0 as int] == cid
                            || stack@.contains(tadj[x as int][k].to) by {
                            if k == j {
                                assert(tadj[x as int][k] == f);
                                if comp_of@[y as int] == usize::MAX {
                                    assert(stack@[stack@.len() - 1] == f.to);
                                }
                            }
                        }
                    }
                    j = j + 1;
                }
                proof {
                    assert forall|a: nat, y: nat|
                        a < n && comp_of@[a as int] == cid && #[trigger] linked(adj, a, y) implies y < n
                            && (comp_of@[y as int] == cid || stack@.contains(NodeId(y as u32))) by {
                        let e = choose|e: Edge| #[trigger] has_edge(adj, e) && ((e.from.0 == a && e.to.0 == y) || (e.from.0 == y && e.to.0 == a));
                        let k = choose|k: int| 0 <= k < adj[e.from.0 as int].len() && adj[e.from.0 as int][k] == e;
                        assert(adj[e.from.0 as int][k] == e);
                        assert(y < n);
                        if a == x {
                            if e.from.0 == a && e.to.0 == y {
                                assert(adj[x as int][k] == e);
                                assert(NodeId(y as u32) == e.to);
                            } else {
                                lemma_edge_in_transposed(adj, e.from.0 as int, k);
                                let r = choose|r: int| 0 <= r < tadj[x as int].len() && tadj[x as int][r] == reversed(e);
                                assert(tadj[x as int][r] == reversed(e));
                                assert(NodeId(y as u32) == reversed(e).to);
                            }
                        } else {
                            assert(linked(adj, a, y));
                        }
                    }
                }
            }
            proof {
                seeds = seeds.push(v as nat);
                assert forall|a: int|
                    0 <= a < n && #[trigger] comp_of@[a] != usize::MAX implies seeds[comp_of@[a] as int] <= a
                        && weakly_connected(adj, seeds[comp_of@[a] as int], a as nat) by {
                    if comp_of@[a] == cid {
                        assert(seeds[cid as int] == v);
                    }
                }
            }
            count = count + 1;
        }
        v = v + 1;
    }
    // Bucket the nodes by component, in increasing id order.
    let mut out: Vec<Vec<NodeId>> = Vec::new();
    let mut c: usize = 0;
    while c < count
        invariant
            c <= count,
            out@.len() == c,
            forall|k: int| 0 <= k < c ==> (#[trigger] out@[k])@.len() == 0,
        decreases count - c,
    {
        out.push(Vec::new());
        c = c + 1;
    }
    let mut x: usize = 0;
    while x < n
        invariant
            adj == g@,
            n == adj.len(),
            n <= u32::MAX,
            well_formed_adj(adj),
            x <= n,
            comp_of@.len() == n,
            seeds.len() == count,
            out@.len() == count,
            count <= n,
            forall|y: int| 0 <= y < n ==> #[trigger] comp_of@[y] < count,
            forall|k: int| 0 <= k < count ==> #[trigger] seeds[k] < n && comp_of@[seeds[k] as int] == k,
            forall|c1: int, c2: int| 0 <= c1 < c2 < count ==> #[trigger] seeds[c1] < #[trigger] seeds[c2],
            forall|y: int| 0 <= y < n ==> seeds[#[trigger] comp_of@[y] as int] <= y,
            forall|k: int, a: int, b: int|
                0 <= k < count && 0 <= a < b < out@[k]@.len() ==> (#[trigger] out@[k]@[a]).0 < (#[trigger] out@[k]@[b]).0,
            forall|k: int, a: int|
                0 <= k < count && 0 <= a < out@[k]@.len() ==> (#[trigger] out@[k]@[a]).0 < x
                    && comp_of@[out@[k]@[a].0 as int] == k,
            forall|y: int| 0 <= y < x ==> #[trigger] out@[comp_of@[y] as int]@.contains(NodeId(y as u32)),
            forall|k: int| 0 <= k < count && seeds[k] < x ==> (#[trigger] out@[k])@.len() > 0 && out@[k]@[0].0 == seeds[k],
        decreases n - x,
    {
        let k = comp_of[x];
        let ghost old_out = out@;
        out[k].push(NodeId(x as u32));
        proof {
            assert(out@[k as int]@ == old_out[k as int]@.push(NodeId(x as u32)));
            assert forall|q: int| 0 <= q < count && q != k implies out@[q] == old_out[q] by {}
            assert forall|y: int| 0 <= y < x + 1 implies #[trigger] out@[comp_of@[y] as int]@.contains(NodeId(y as u32)) by {
                if y == x {
                    assert(out@[k as int]@[out@[k as int]@.len() - 1] == NodeId(y as u32));
                } else {
                    let q = comp_of@[y] as int;
                    assert(old_out[q]@.contains(NodeId(y as u32)));
                    let a = choose|a: int| 0 <= a < old_out[q]@.len() && old_out[q]@[a] == NodeId(y as u32);
                    assert(out@[q]@[a] == NodeId(y as u32));
                }
            }
            assert forall|q: int| 0 <= q < count && seeds[q] < x + 1 implies (#[trigger] out@[q])@.len() > 0 && out@[q]@[0].0 == seeds[q] by {
                if q == k && seeds[q] == x {
                    if old_out[q]@.len() > 0 {
                        let z = old_out[q]@[0];
                        assert(comp_of@[z.0 as int] == q);
                        assert(seeds[comp_of@[z.0 as int] as int] <= z.0);
                    }
                }
            }
        }
        x = x + 1;
    }
    proof {
        let cv = comps_view(out@);
        assert forall|i: int| 0 <= i < cv.len() implies cv[i] == out@[i]@ by {}
        assert forall|v: nat| v < n implies #[trigger] listed(cv, v) by {
            let q = comp_of@[v as int] as int;
            assert(out@[q]@.contains(NodeId(v as u32)));
            let a = choose|a: int| 0 <= a < out@[q]@.len() && out@[q]@[a] == NodeId(v as u32);
            assert(cv[q][a].0 == v);
        }
        assert forall|i: int, a: int, j: int, b: int|
            0 <= i < cv.len() && 0 <= a < cv[i].len() && 0 <= j < cv.len() && 0 <= b
                < cv[j].len() && #[trigger] cv[i][a] == #[trigger] cv[j][b] implies i == j && a == b by {
            assert(comp_of@[cv[i][a].0 as int] == i);
            assert(comp_of@[cv[j][b].0 as int] == j);
            if a < b {
                assert(cv[i][a].0 < cv[i][b].0);
            } else if b < a {
                assert(cv[i][b].0 < cv[i][a].0);
            }
        }
        assert forall|i: int, j: int| 0 <= i < j < cv.len() implies (#[trigger] cv[i])[0].0 < (#[trigger] cv[j])[0].0 by {
            assert(seeds[i] < seeds[j]);
        }
        assert(is_partition(n as nat, cv));
        assert(sorted_components(cv));
        assert forall|i: int, a: int, j: int, b: int|
            0 <= i < cv.len() && 0 <= a < cv[i].len() && 0 <= j < cv.len() && 0 <= b
                < cv[j].len() implies (weakly_connected(adj, (#[trigger] cv[i][a]).0 as nat, (#[trigger] cv[j][b]).0 as nat)
                <==> i == j) by {
            let xa = cv[i][a].0 as nat;
            let yb = cv[j][b].0 as nat;
            assert(comp_of@[xa as int] == i);
            assert(comp_of@[yb as int] == j);
            if i == j {
                lemma_wc_symm(adj, seeds[i], xa);
                lemma_wc_trans(adj, xa, seeds[i], yb);
            }
            if weakly_connected(adj, xa, yb) {
                let closed = |z: nat| z < n && comp_of@[z as int] == i;
                assert forall|p: nat, q: nat| #[trigger] closed(p) && linked(adj, p, q) implies #[trigger] closed(q) by {
                    assert(linked(adj, p, q));
                }
                lemma_wc_closed(adj, closed, xa, yb);
            }
        }
    }
    out
}

/// Work left on a depth-first stack of (node, next neighbor index) frames.
spec fn frames_work(adj: Seq<Seq<Edge>>, st: Seq<(NodeId, usize)>) -> nat
    decreases st.len(),
{
    if st.len() == 0 {
        0
    } else {
        frames_work(adj, st.drop_last()) + (adj[st.last().0.0 as int].len() - st.last().1) as nat + 1
    }
}

/// The nodes of the frames, bottom first.
spec fn frame_nodes(st: Seq<(NodeId, usize)>) -> Seq<NodeId> {
    st.map_values(|p: (NodeId, usize)| p.0)
}

/// Node `s` finished after position `p` of `order`, or is still open.
spec fn later_or_open(order: Seq<NodeId>, open: Seq<NodeId>, p: int, s: nat) -> bool {
    ||| exists|r: int| p < r < order.len() && #[trigger] order[r] == NodeId(s as u32)
    ||| open.contains(NodeId(s as u32))
}

/// What depth-first search promises of the order in which it finishes
/// nodes: when a node reaches a node that had not finished by the time it
/// finished, a node that finished later reaches it and is reached by it.
pub open spec fn finish_ok(adj: Seq<Seq<Edge>>, order: Seq<NodeId>) -> bool {
    forall|p: int, v: nat|
        0 <= p < order.len() && #[trigger] reachable(adj, order[p].0 as nat, v) && !order.take(
            p + 1,
        ).contains(NodeId(v as u32)) ==> exists|r: int|
            p < r < order.len() && #[trigger] mutual(adj, order[p].0 as nat, order[r].0 as nat)
}

/// `finish_ok` while the nodes `open` are still on the search stack.
spec fn finish_inv(adj: Seq<Seq<Edge>>, order: Seq<NodeId>, open: Seq<NodeId>) -> bool {
    forall|p: int, v: nat|
        0 <= p < order.len() && #[trigger] reachable(adj, order[p].0 as nat, v) && !order.take(
            p + 1,
        ).contains(NodeId(v as u32)) ==> exists|s: nat|
            #[trigger] mutual(adj, order[p].0 as nat, s) && later_or_open(order, open, p, s)
}

/// The neighbors of a stack frame that the search has passed are visited.
spec fn frame_done(adj: Seq<Seq<Edge>>, visited: Seq<bool>, fr: (NodeId, usize)) -> bool {
    forall|k: int| 0 <= k < fr.1 ==> #[trigger] visited[adj[fr.0.0 as int][k].to.0 as int]
}

/// Every node once, in the order in which depth-first searches started at
/// nodes `0, 1, ...` finish them (the first pass of Kosaraju's algorithm).
fn finish_order(g: &Graph) -> (order: Vec<NodeId>)
    ensures
        order@.no_duplicates(),
        forall|i: int| 0 <= i < order@.len() ==> (#[trigger] order@[i]).0 < g@.len(),
        forall|v: nat| v < g@.len() ==> #[trigger] order@.contains(NodeId(v as u32)),
        finish_ok(g@, order@),
{
    proof {
        use_type_invariant(g);
        g.lemma_inv();
    }
    let ghost adj = g@;
    let n = g.node_count();
    let mut visited = filled(false, n);
    let mut order: Vec<NodeId> = Vec::new();
    let mut start: usize = 0;
    while start < n
        invariant
            adj == g@,
            n == adj.len(),
            n <= u32::MAX,
            well_formed_adj(adj),
            start <= n,
            visited@.len() == n,
            order@.no_duplicates(),
            forall|i: int| 0 <= i < order@.len() ==> (#[trigger] order@[i]).0 < n,
            forall|v: nat| v < n ==> (#[trigger] visited@[v as int] <==> order@.contains(NodeId(v as u32))),
            forall|v: nat| v < start ==> #[trigger] visited@[v as int],
            finish_inv(adj, order@, Seq::empty()),
            forall|e: Edge| #[trigger] has_edge(adj, e) && order@.contains(e.from) ==> visited@[e.to.0 as int],
        decreases n - start,
    {
        if !visited[start] {
            let mut stack: Vec<(NodeId, usize)> = Vec::new();
            stack.push((NodeId(start as u32), 0));
            let ghost old_order = order@;
            let ghost old_visited = visited@;
            proof {
                lemma_count_false_set(visited@, start as int);
            }
            visited.set(start, true);
            proof {
                lemma_walk_empty(adj, start as nat);
                assert(frame_nodes(stack@) =~= seq![NodeId(start as u32)]);
                assert forall|p: int, v: nat|
                    0 <= p < order@.len() && #[trigger] reachable(adj, order@[p].0 as nat, v) && !order@.take(p + 1).contains(NodeId(v as u32))
                    implies exists|s: nat| #[trigger] mutual(adj, order@[p].0 as nat, s) && later_or_open(order@, frame_nodes(stack@), p, s) by {
                    let s0 = choose|s: nat| #[trigger] mutual(adj, order@[p].0 as nat, s) && later_or_open(order@, Seq::<NodeId>::empty(), p, s);
                    assert(later_or_open(order@, frame_nodes(stack@), p, s0));
                }
                assert forall|e: Edge| #[trigger] has_edge(adj, e) && order@.contains(e.from) implies visited@[e.to.0 as int] by {
                    assert(old_visited[e.to.0 as int]);
                }
                assert forall|i: int| 0 <= i < stack@.len() implies frame_done(adj, visited@, #[trigger] stack@[i]) by {}
                assert forall|i: int, j: int| 0 <= i <= j < stack@.len() implies reachable(adj, (#[trigger] stack@[i]).0.0 as nat, (#[trigger] stack@[j]).0.0 as nat) by {}
                assert(!order@.contains(NodeId(start as u32)));
                assert forall|i: int, j: int| 0 <= i < j < (order@ + frame_nodes(stack@)).len() implies (order@ + frame_nodes(stack@))[i] != (order@ + frame_nodes(stack@))[j] by {
                    let w = order@ + frame_nodes(stack@);
                    if j == order@.len() {
                        assert(w[i] == order@[i]);
                    } else {
                        assert(w[i] == order@[i] && w[j] == order@[j]);
                    }
                }
                assert forall|v: nat| v < n implies (#[trigger] visited@[v as int] <==> (order@ + frame_nodes(stack@)).contains(NodeId(v as u32))) by {
                    let w = order@ + frame_nodes(stack@);
                    if v == start {
                        assert(w[order@.len() as int] == NodeId(v as u32));
                    } else if order@.contains(NodeId(v as u32)) {
                        let i = choose|i: int| 0 <= i < order@.len() && order@[i] == NodeId(v as u32);
                        assert(w[i] == NodeId(v as u32));
                    } else if w.contains(NodeId(v as u32)) {
                        let i = choose|i: int| 0 <= i < w.len() && w[i] == NodeId(v as u32);
                        if i < order@.len() {
                            assert(order@[i] == NodeId(v as u32));
                        }
                    }
                }
            }
            loop
                invariant
                    adj == g@,
                    n == adj.len(),
                    n <= u32::MAX,
                    well_formed_adj(adj),
                    start < n,
                    visited@.len() == n,
                    visited@[start as int],
                    forall|v: nat| v < start ==> #[trigger] visited@[v as int],
                    forall|k: int| 0 <= k < stack@.len() ==> (#[trigger] stack@[k]).0.0 < n
                        && stack@[k].1 <= adj[stack@[k].0.0 as int].len(),
                    (order@ + frame_nodes(stack@)).no_duplicates(),
                    forall|i: int| 0 <= i < order@.len() ==> (#[trigger] order@[i]).0 < n,
                    forall|v: nat| v < n ==> (#[trigger] visited@[v as int] <==> (order@ + frame_nodes(stack@)).contains(NodeId(v as u32))),
                    finish_inv(adj, order@, frame_nodes(stack@)),
                    forall|e: Edge| #[trigger] has_edge(adj, e) && order@.contains(e.from) ==> visited@[e.to.0 as int],
                    forall|i: int| 0 <= i < stack@.len() ==> frame_done(adj, visited@, #[trigger] stack@[i]),
                    forall|i: int, j: int| 0 <= i <= j < stack@.len() ==> reachable(adj, (#[trigger] stack@[i]).0.0 as nat, (#[trigger] stack@[j]).0.0 as nat),
                ensures
                    stack@.len() == 0,
                decreases count_false(visited@), frames_work(adj, stack@),
            {
                if stack.len() == 0 {
                    break;
                }
                let top = stack.len() - 1;
                let (node, idx) = stack[top];
                let ghost old_stack = stack@;
                let ghost w_old = order@ + frame_nodes(stack@);
                let nb = g.neighbors(node);
                proof {
                    assert(old_stack[top as int] == (node, idx));
                    assert(old_stack.drop_last() =~= old_stack.subrange(0, top as int));
                }
                if idx < nb.len() {
                    let next = nb[idx].to;
                    proof {
                        assert(adj[node.0 as int][idx as int].to == next);
                    }
                    stack.set(top, (node, idx + 1));
                    proof {
                        assert(stack@.drop_last() =~= old_stack.drop_last());
                        assert(frame_nodes(stack@) =~= frame_nodes(old_stack));
                    }
                    if !visited[next.index()] {
                        let ghost w_mid = order@ + frame_nodes(stack@);
                        proof {
                            lemma_count_false_set(visited@, next.0 as int);
                            assert(!w_mid.contains(next));
                        }
                        visited.set(next.index(), true);
                        let ghost st_mid = stack@;
                        stack.push((next, 0));
                        proof {
                            assert(frame_nodes(stack@) =~= frame_nodes(st_mid).push(next));
                            let w = order@ + frame_nodes(stack@);
                            assert(w =~= w_mid.push(next));
                            assert forall|i: int, j: int| 0 <= i < j < w.len() implies w[i] != w[j] by {
                                if j == w.len() - 1 {
                                    assert(w[i] == w_mid[i]);
                                } else {
                                    assert(w[i] == w_mid[i] && w[j] == w_mid[j]);
                                }
                            }
                            assert forall|v: nat| v < n implies (#[trigger] visited@[v as int] <==> w.contains(NodeId(v as u32))) by {
                                if v == next.0 {
                                    assert(w[w.len() - 1] == NodeId(v as u32));
                                } else if w_mid.contains(NodeId(v as u32)) {
                                    let i = choose|i: int| 0 <= i < w_mid.len() && w_mid[i] == NodeId(v as u32);
                                    assert(w[i] == NodeId(v as u32));
                                } else if w.contains(NodeId(v as u32)) {
                                    let i = choose|i: int| 0 <= i < w.len() && w[i] == NodeId(v as u32);
                                    if i < w_mid.len() {
                                        assert(w_mid[i] == NodeId(v as u32));
                                    }
                                }
                            }
                            assert(stack@.drop_last() =~= st_mid);
                            let e = adj[node.0 as int][idx as int];
                            assert(e.from.0 == node.0);
                            assert(has_edge(adj, e)) by {
                                assert(adj[e.from.0 as int][idx as int] == e);
                            }
                            assert forall|i: int, j: int| 0 <= i <= j < stack@.len() implies reachable(
                                adj,
                                (#[trigger] stack@[i]).0.0 as nat,
                                (#[trigger] stack@[j]).0.0 as nat,
                            ) by {
                                let last = stack@.len() - 1;
                                if j == last {
                                    if i == j {
                                        lemma_walk_empty(adj, next.0 as nat);
                                    } else {
                                        assert(stack@[i].0 == old_stack[i].0);
                                        assert(old_stack[top as int].0 == node);
                                        assert(reachable(adj, old_stack[i].0.0 as nat, old_stack[top as int].0.0 as nat));
                                        lemma_reach_edge(adj, stack@[i].0.0 as nat, e);
                                    }
                                } else {
                                    assert(stack@[i].0 == old_stack[i].0 && stack@[j].0 == old_stack[j].0);
                                }
                            }
                            assert forall|p: int, v: nat|
                                0 <= p < order@.len() && #[trigger] reachable(adj, order@[p].0 as nat, v) && !order@.take(p + 1).contains(NodeId(v as u32))
                                implies exists|s: nat| #[trigger] mutual(adj, order@[p].0 as nat, s) && later_or_open(order@, frame_nodes(stack@), p, s) by {
                                let s0 = choose|s: nat| #[trigger] mutual(adj, order@[p].0 as nat, s) && later_or_open(order@, frame_nodes(old_stack), p, s);
                                if frame_nodes(old_stack).contains(NodeId(s0 as u32)) {
                                    let k = choose|k: int| 0 <= k < frame_nodes(old_stack).len() && frame_nodes(old_stack)[k] == NodeId(s0 as u32);
                                    assert(frame_nodes(stack@)[k] == NodeId(s0 as u32));
                                }
                                assert(later_or_open(order@, frame_nodes(stack@), p, s0));
                            }
                        }
                    } else {
                        proof {
                            assert(frames_work(adj, stack@) < frames_work(adj, old_stack));
                            assert forall|i: int, j: int| 0 <= i <= j < stack@.len() implies reachable(
                                adj,
                                (#[trigger] stack@[i]).0.0 as nat,
                                (#[trigger] stack@[j]).0.0 as nat,
                            ) by {
                                assert(stack@[i].0 == old_stack[i].0 && stack@[j].0 == old_stack[j].0);
                            }
                        }
                    }
                } else {
                    let ghost old_order2 = order@;
                    order.push(node);
                    stack.pop();
                    proof {
                        assert(stack@ =~= old_stack.drop_last());
                        assert(frame_nodes(old_stack) =~= frame_nodes(stack@).push(node));
                        let w = order@ + frame_nodes(stack@);
                        let ol = old_order2.len() as int;
                        assert(w.len() == w_old.len());
                        assert forall|i: int| 0 <= i < w.len() implies #[trigger] w[i] == w_old[
                            if i < ol { i } else if i == ol { w_old.len() - 1 } else { i - 1 }
                        ] by {
                            if i < ol {
                                assert(w[i] == old_order2[i]);
                            } else if i == ol {
                                assert(w[i] == node);
                            } else {
                                assert(w[i] == frame_nodes(stack@)[i - ol - 1]);
                                assert(w_old[i - 1] == frame_nodes(old_stack)[i - 1 - ol]);
                            }
                        }
                        assert forall|i: int, j: int| 0 <= i < j < w.len() implies w[i] != w[j] by {
                            let fi = if i < ol { i } else if i == ol { w_old.len() - 1 } else { i - 1 };
                            let fj = if j < ol { j } else if j == ol { w_old.len() - 1 } else { j - 1 };
                            assert(w[i] == w_old[fi] && w[j] == w_old[fj]);
                            assert(fi != fj);
                        }
                        assert forall|v: nat| v < n implies (#[trigger] visited@[v as int] <==> w.contains(NodeId(v as u32))) by {
                            if w_old.contains(NodeId(v as u32)) {
                                let k = choose|k: int| 0 <= k < w_old.len() && w_old[k] == NodeId(v as u32);
                                let i = if k < ol { k } else if k == w_old.len() - 1 { ol } else { k + 1 };
                                assert(w[i] == w_old[k]);
                            }
                            if w.contains(NodeId(v as u32)) {
                                let i = choose|i: int| 0 <= i < w.len() && w[i] == NodeId(v as u32);
                                let fi = if i < ol { i } else if i == ol { w_old.len() - 1 } else { i - 1 };
                                assert(w[i] == w_old[fi]);
                            }
                        }
                        assert forall|i: int, j: int| 0 <= i <= j < stack@.len() implies reachable(
                            adj,
                            (#[trigger] stack@[i]).0.0 as nat,
                            (#[trigger] stack@[j]).0.0 as nat,
                        ) by {
                            assert(stack@[i] == old_stack[i] && stack@[j] == old_stack[j]);
                        }
                        assert(order@ == old_order2.push(node));
                        assert forall|p: int, v: nat|
                            0 <= p < order@.len() && #[trigger] reachable(adj, order@[p].0 as nat, v) && !order@.take(p + 1).contains(NodeId(v as u32))
                            implies exists|s: nat| #[trigger] mutual(adj, order@[p].0 as nat, s) && later_or_open(order@, frame_nodes(stack@), p, s) by {
                            if p < ol {
                                assert(order@.take(p + 1) =~= old_order2.take(p + 1));
                                assert(order@[p] == old_order2[p]);
                                let s0 = choose|s: nat| #[trigger] mutual(adj, old_order2[p].0 as nat, s) && later_or_open(old_order2, frame_nodes(old_stack), p, s);
                                if exists|r: int| p < r < old_order2.len() && #[trigger] old_order2[r] == NodeId(s0 as u32) {
                                    let r = choose|r: int| p < r < old_order2.len() && #[trigger] old_order2[r] == NodeId(s0 as u32);
                                    assert(order@[r] == NodeId(s0 as u32));
                                } else {
                                    assert(frame_nodes(old_stack).contains(NodeId(s0 as u32)));
                                    let k = choose|k: int| 0 <= k < frame_nodes(old_stack).len() && frame_nodes(old_stack)[k] == NodeId(s0 as u32);
                                    if k == top {
                                        assert(order@[ol] == NodeId(s0 as u32));
                                    } else {
                                        assert(frame_nodes(stack@)[k] == NodeId(s0 as u32));
                                    }
                                }
                                assert(later_or_open(order@, frame_nodes(stack@), p, s0));
                            } else {
                                assert(p == ol);
                                assert(order@.take(p + 1) =~= order@);
                                let x = node.0 as nat;
                                assert(order@[p] == node);
                                let inside = |z: nat| order@.contains(NodeId(z as u32));
                                let wk = choose|wk: Seq<Edge>| #[trigger] is_walk(adj, x, v, wk);
                                assert(inside(x));
                                let e = lemma_leave(adj, x, v, inside, wk);
                                assert(order@.contains(e.from)) by {
                                    assert(NodeId(e.from.0 as nat as u32) == e.from);
                                }
                                let k0 = choose|k: int| 0 <= k < adj[e.from.0 as int].len() && adj[e.from.0 as int][k] == e;
                                assert(adj[e.from.0 as int][k0] == e);
                                assert(e.to.0 < n);
                                if e.from == node {
                                    assert(frame_done(adj, visited@, old_stack[top as int]));
                                    assert(visited@[adj[node.0 as int][k0].to.0 as int]);
                                } else {
                                    assert(old_order2.contains(e.from)) by {
                                        let q = choose|q: int| 0 <= q < order@.len() && order@[q] == e.from;
                                        assert(q < ol);
                                        assert(old_order2[q] == e.from);
                                    }
                                }
                                assert(visited@[e.to.0 as int]);
                                assert(w.contains(NodeId(e.to.0 as nat as u32)));
                                assert(NodeId(e.to.0 as nat as u32) == e.to);
                                assert(!order@.contains(e.to));
                                let q = choose|q: int| 0 <= q < w.len() && w[q] == e.to;
                                assert(q >= order@.len());
                                let kk = q - order@.len();
                                assert(frame_nodes(stack@)[kk] == e.to);
                                assert(stack@[kk].0 == e.to);
                                assert(stack@[kk] == old_stack[kk]);
                                assert(reachable(adj, old_stack[kk].0.0 as nat, old_stack[top as int].0.0 as nat));
                                assert(mutual(adj, x, e.to.0 as nat));
                                assert(frame_nodes(stack@).contains(NodeId(e.to.0 as nat as u32)));
                                assert(later_or_open(order@, frame_nodes(stack@), p, e.to.0 as nat));
                            }
                        }
                    }
                }
            }
            proof {
                assert(order@ + frame_nodes(stack@) =~= order@);
            }
        }
        start = start + 1;
    }
    proof {
        assert forall|v: nat| v < n implies #[trigger] order@.contains(NodeId(v as u32)) by {
            assert(visited@[v as int]);
        }
        assert forall|p: int, v: nat|
            0 <= p < order@.len() && #[trigger] reachable(adj, order@[p].0 as nat, v) && !order@.take(p + 1).contains(NodeId(v as u32))
            implies exists|r: int| p < r < order@.len() && #[trigger] mutual(adj, order@[p].0 as nat, order@[r].0 as nat) by {
            let s0 = choose|s: nat| #[trigger] mutual(adj, order@[p].0 as nat, s) && later_or_open(order@, Seq::<NodeId>::empty(), p, s);
            let r = choose|r: int| p < r < order@.len() && #[trigger] order@[r] == NodeId(s0 as u32);
            assert(order@[r].0 == s0);
            assert(mutual(adj, order@[p].0 as nat, order@[r].0 as nat));
        }
    }
    order
}

/// In a finish order, when node `ord[p]` reaches node `ord[q]` but is not
/// reached back, some node that finished after `ord[q]` reaches and is
/// reached by `ord[p]`.
proof fn lemma_finish_later(adj: Seq<Seq<Edge>>, ord: Seq<NodeId>, p: int, q: int)
    requires
        finish_ok(adj, ord),
        ord.no_duplicates(),
        0 <= p < ord.len(),
        0 <= q < ord.len(),
        reachable(adj, ord[p].0 as nat, ord[q].0 as nat),
        !reachable(adj, ord[q].0 as nat, ord[p].0 as nat),
    ensures
        exists|r: int| q < r < ord.len() && #[trigger] mutual(adj, ord[p].0 as nat, ord[r].0 as nat),
    decreases ord.len() - p,
{
    let u = ord[p].0 as nat;
    let v = ord[q].0 as nat;
    if p == q {
        lemma_walk_empty(adj, u);
    } else if p > q {
        lemma_walk_empty(adj, u);
        assert(mutual(adj, u, ord[p].0 as nat));
    } else {
        assert(NodeId(v as u32) == ord[q]);
        assert(!ord.take(p + 1).contains(NodeId(v as u32))) by {
            let t = ord.take(p + 1);
            if t.contains(NodeId(v as u32)) {
                let k = choose|k: int| 0 <= k < t.len() && #[trigger] t[k] == NodeId(v as u32);
                assert(ord[k] == ord[q]);
            }
        }
        assert(reachable(adj, ord[p].0 as nat, v));
        let r1 = choose|r: int| p < r < ord.len() && #[trigger] mutual(adj, ord[p].0 as nat, ord[r].0 as nat);
        let u1 = ord[r1].0 as nat;
        lemma_reach_trans(adj, u1, u, v);
        if reachable(adj, v, u1) {
            lemma_reach_trans(adj, v, u1, u);
        }
        lemma_finish_later(adj, ord, r1, q);
        let r = choose|r: int| q < r < ord.len() && #[trigger] mutual(adj, u1, ord[r].0 as nat);
        lemma_mutual_trans(adj, u, u1, ord[r].0 as nat);
    }
}

/// The smallest node id of a component (`0` for an empty one).
pub open spec fn comp_key(c: Seq<NodeId>) -> nat
    decreases c.len(),
{
    if c.len() == 0 {
        0
    } else if c.len() == 1 {
        c[0].0 as nat
    } else {
        let k = comp_key(c.drop_last());
        if c.last().0 < k {
            c.last().0 as nat
        } else {
            k
        }
    }
}

/// The key of a nonempty component is one of its ids and no id is smaller.
pub proof fn lemma_comp_key(c: Seq<NodeId>)
    requires
        c.len() > 0,
    ensures
        forall|a: int| 0 <= a < c.len() ==> comp_key(c) <= (#[trigger] c[a]).0,
        exists|a: int| 0 <= a < c.len() && (#[trigger] c[a]).0 == comp_key(c),
    decreases c.len(),
{
    if c.len() > 1 {
        lemma_comp_key(c.drop_last());
        let a0 = choose|a: int| 0 <= a < c.drop_last().len() && (#[trigger] c.drop_last()[a]).0 == comp_key(c.drop_last());
        assert(c[a0] == c.drop_last()[a0]);
        assert forall|a: int| 0 <= a < c.len() implies comp_key(c) <= (#[trigger] c[a]).0 by {
            if a < c.len() - 1 {
                assert(c[a] == c.drop_last()[a]);
            }
        }
        if c.last().0 < comp_key(c.drop_last()) {
            assert(c[c.len() - 1].0 == comp_key(c));
        }
    } else {
        assert(c[0].0 == comp_key(c));
    }
}

/// The smallest node id of a component.
fn min_id(c: &Vec<NodeId>) -> (r: u32)
    ensures
        r == comp_key(c@),
{
    if c.len() == 0 {
        return 0;
    }
    let mut best = c[0].0;
    let mut i: usize = 1;
    while i < c.len()
        invariant
            1 <= i <= c@.len(),
            best == comp_key(c@.subrange(0, i as int)),
        decreases c@.len() - i,
    {
        proof {
            assert(c@.subrange(0, i + 1).drop_last() =~= c@.subrange(0, i as int));
        }
        if c[i].0 < best {
            best = c[i].0;
        }
        i = i + 1;
    }
    proof {
        assert(c@.subrange(0, c@.len() as int) =~= c@);
    }
    best
}

/// A well-formed component: nonempty, of graph nodes, without repeats,
/// labelled `lab` throughout, and every node reaches the first one and is
/// reached by it.
spec fn comp_ok(adj: Seq<Seq<Edge>>, comp_of: Seq<usize>, c: Seq<NodeId>, lab: int) -> bool {
    &&& c.len() > 0
    &&& c.no_duplicates()
    &&& forall|a: int| 0 <= a < c.len() ==> (#[trigger] c[a]).0 < adj.len()
        && comp_of[c[a].0 as int] == lab
        && reachable(adj, c[a].0 as nat, c[0].0 as nat)
        && reachable(adj, c[0].0 as nat, c[a].0 as nat)
    &&& forall|v: nat| v < adj.len() && comp_of[v as int] == lab ==> #[trigger] c.contains(NodeId(v as u32))
}

/// Strongly-connected components by Kosaraju's two-pass algorithm: a
/// depth-first pass records finish order, then searches over the transposed
/// graph, seeded in reverse finish order, collect the components. Every
/// node lies in exactly one component, two nodes share a component exactly
/// when each reaches the other, every component is nonempty and each of its
/// nodes reaches its first node, and the components are ordered by their
/// smallest node id.
pub fn kosaraju(g: &Graph) -> (comps: Vec<Vec<NodeId>>)
    ensures
        is_partition(g@.len(), comps_view(comps@)),
        forall|i: int| 0 <= i < comps@.len() ==> (#[trigger] comps@[i])@.len() > 0,
        forall|i: int, j: int|
            0 <= i < j < comps@.len() ==> comp_key((#[trigger] comps@[i])@) < comp_key((#[trigger] comps@[j])@),
        forall|i: int, a: int|
            0 <= i < comps@.len() && 0 <= a < comps@[i]@.len() ==> reachable(
                g@,
                (#[trigger] comps@[i]@[a]).0 as nat,
                comps@[i]@[0].0 as nat,
            ),
        grouped_by(comps_view(comps@), |a: nat, b: nat| mutual(g@, a, b)),
{
    proof {
        use_type_invariant(g);
        g.lemma_inv();
    }
    let ghost adj = g@;
    let n = g.node_count();
    let mut order = finish_order(g);
    let ghost ord0 = order@;
    proof {
        assert(order@ == ord0.take(order@.len() as int));
    }
    let t = g.transpose();
    let ghost tadj = t@;
    let mut comp_of: Vec<usize> = filled(usize::MAX, n);
    let mut comps: Vec<Vec<NodeId>> = Vec::new();
    let ghost mut labeled: Seq<bool> = Seq::new(n as nat, |x: int| false);
    proof {
        lemma_count_false_all(n as nat);
    }
    loop
        invariant
            adj == g@,
            tadj == t@,
            tadj == transposed(adj),
            n == adj.len(),
            n <= u32::MAX,
            well_formed_adj(adj),
            comp_of@.len() == n,
            labeled.len() == n,
            comps@.len() + count_false(labeled) <= n,
            forall|x: int| 0 <= x < n ==> (#[trigger] labeled[x] <==> comp_of@[x] != usize::MAX),
            forall|x: int| 0 <= x < n ==> #[trigger] comp_of@[x] == usize::MAX || comp_of@[x] < comps@.len(),
            forall|i: int| 0 <= i < order@.len() ==> (#[trigger] order@[i]).0 < n,
            forall|v: nat| v < n && comp_of@[v as int] == usize::MAX ==> #[trigger] order@.contains(NodeId(v as u32)),
            forall|c: int| 0 <= c < comps@.len() ==> comp_ok(adj, comp_of@, (#[trigger] comps@[c])@, c),
            finish_ok(adj, ord0),
            ord0.no_duplicates(),
            forall|i: int| 0 <= i < ord0.len() ==> (#[trigger] ord0[i]).0 < n,
            forall|v: nat| v < n ==> #[trigger] ord0.contains(NodeId(v as u32)),
            order@.len() <= ord0.len(),
            order@ == ord0.take(order@.len() as int),
            forall|i: int| order@.len() <= i < ord0.len() ==> #[trigger] comp_of@[ord0[i].0 as int] != usize::MAX,
            forall|x: nat, v: nat|
                x < n && v < n && comp_of@[x as int] != usize::MAX && #[trigger] mutual(adj, x, v)
                    ==> comp_of@[v as int] == comp_of@[x as int],
        ensures
            order@.len() == 0,
        decreases order@.len(),
    {
        let ghost old_order = order@;
        let seed = match order.pop() {
            None => break,
            Some(s) => s,
        };
        proof {
            assert(old_order.last() == seed);
            assert(order@ =~= old_order.drop_last());
            assert(order@ =~= ord0.take(order@.len() as int));
            assert(seed == ord0[order@.len() as int]);
            assert forall|v: nat| v < n && comp_of@[v as int] == usize::MAX && NodeId(v as u32) != seed implies #[trigger] order@.contains(NodeId(v as u32)) by {
                assert(old_order.contains(NodeId(v as u32)));
                let i = choose|i: int| 0 <= i < old_order.len() && old_order[i] == NodeId(v as u32);
                assert(order@[i] == NodeId(v as u32));
            }
        }
        if comp_of[seed.index()] != usize::MAX {
            proof {
                assert forall|i: int| order@.len() <= i < ord0.len() implies #[trigger] comp_of@[ord0[i].0 as int] != usize::MAX by {
                    if i == order@.len() {
                        assert(ord0[i] == seed);
                    }
                }
            }
            continue;
        }
        let cid = comps.len();
        comps.push(Vec::new());
        let mut stack: Vec<NodeId> = Vec::new();
        stack.push(seed);
        proof {
            lemma_walk_empty(adj, seed.0 as nat);
            lemma_count_false_set(labeled, seed.0 as int);
            assert(cid < n);
            assert forall|v: nat| v < n && comp_of@[v as int] == cid implies #[trigger] comps@[cid as int]@.contains(NodeId(v as u32)) by {
                assert(comp_of@[v as int] == usize::MAX || comp_of@[v as int] < cid);
            }
            assert forall|c: int| 0 <= c < cid implies comp_ok(adj, comp_of@, (#[trigger] comps@[c])@, c) by {
                assert(comps@[c] == comps@.drop_last()[c]);
            }
            assert forall|i: int| order@.len() < i < ord0.len() implies #[trigger] comp_of@[ord0[i].0 as int] != usize::MAX
                && comp_of@[ord0[i].0 as int] < cid by {
                assert(comp_of@[ord0[i].0 as int] == usize::MAX || comp_of@[ord0[i].0 as int] < cid);
            }
            assert forall|e: Edge| #[trigger] has_edge(adj, e) && comp_of@[e.to.0 as int] == cid
                implies comp_of@[e.from.0 as int] != usize::MAX || stack@.contains(e.from) by {
                let k = choose|k: int| 0 <= k < adj[e.from.0 as int].len() && adj[e.from.0 as int][k] == e;
                assert(adj[e.from.0 as int][k] == e);
                assert(comp_of@[e.to.0 as int] == usize::MAX || comp_of@[e.to.0 as int] < cid);
            }
        }
        loop
            invariant
                adj == g@,
                tadj == t@,
                tadj == transposed(adj),
                n == adj.len(),
                n <= u32::MAX,
                well_formed_adj(adj),
                seed.0 < n,
                cid + 1 == comps@.len(),
                comp_of@.len() == n,
                labeled.len() == n,
                comps@[cid as int]@.len() == 0 ==> cid + count_false(labeled) <= n && stack@ == seq![seed]
                    && comp_of@[seed.0 as int] == usize::MAX,
                comps@[cid as int]@.len() > 0 ==> cid + 1 + count_false(labeled) <= n
                    && comps@[cid as int]@[0] == seed,
                forall|x: int| 0 <= x < n ==> (#[trigger] labeled[x] <==> comp_of@[x] != usize::MAX),
                forall|x: int| 0 <= x < n ==> #[trigger] comp_of@[x] == usize::MAX || comp_of@[x] <= cid,
                forall|i: int| 0 <= i < order@.len() ==> (#[trigger] order@[i]).0 < n,
                forall|v: nat| v < n && comp_of@[v as int] == usize::MAX && NodeId(v as u32) != seed ==> #[trigger] order@.contains(NodeId(v as u32)),
                forall|c: int| 0 <= c < cid ==> comp_ok(adj, comp_of@, (#[trigger] comps@[c])@, c),
                comps@[cid as int]@.no_duplicates(),
                forall|a: int| 0 <= a < comps@[cid as int]@.len() ==> (#[trigger] comps@[cid as int]@[a]).0 < n
                    && comp_of@[comps@[cid as int]@[a].0 as int] == cid
                    && reachable(adj, comps@[cid as int]@[a].0 as nat, seed.0 as nat),
                forall|v: nat| v < n && comp_of@[v as int] == cid ==> #[trigger] comps@[cid as int]@.contains(NodeId(v as u32)),
                forall|k: int| 0 <= k < stack@.len() ==> (#[trigger] stack@[k]).0 < n
                    && reachable(adj, stack@[k].0 as nat, seed.0 as nat),
                finish_ok(adj, ord0),
                ord0.no_duplicates(),
                forall|i: int| 0 <= i < ord0.len() ==> (#[trigger] ord0[i]).0 < n,
                forall|v: nat| v < n ==> #[trigger] ord0.contains(NodeId(v as u32)),
                order@.len() < ord0.len(),
                order@ == ord0.take(order@.len() as int),
                seed == ord0[order@.len() as int],
                forall|i: int| order@.len() < i < ord0.len() ==> #[trigger] comp_of@[ord0[i].0 as int] != usize::MAX
                    && comp_of@[ord0[i].0 as int] < cid,
                forall|x: nat, v: nat|
                    x < n && v < n && comp_of@[x as int] < cid && #[trigger] mutual(adj, x, v)
                        ==> comp_of@[v as int] == comp_of@[x as int],
                forall|a: int| 0 <= a < comps@[cid as int]@.len() ==> reachable(adj, seed.0 as nat, (#[trigger] comps@[cid as int]@[a]).0 as nat),
                forall|e: Edge| #[trigger] has_edge(adj, e) && comp_of@[e.to.0 as int] == cid
                    ==> comp_of@[e.from.0 as int] != usize::MAX || stack@.contains(e.from),
            ensures
                stack@.len() == 0,
            decreases count_false(labeled), stack@.len(),
        {
            let ghost old_stack = stack@;
            let node = match stack.pop() {
                None => break,
                Some(x) => x,
            };
            proof {
                assert(old_stack.last() == node);
                assert(stack@ =~= old_stack.drop_last());
                assert forall|k: int| 0 <= k < stack@.len() implies (#[trigger] stack@[k]).0 < n
                    && reachable(adj, stack@[k].0 as nat, seed.0 as nat) by {
                    assert(stack@[k] == old_stack[k]);
                }
            }
            let x = node.index();
            if comp_of[x] != usize::MAX {
                proof {
                    assert forall|e: Edge| #[trigger] has_edge(adj, e) && comp_of@[e.to.0 as int] == cid
                        implies comp_of@[e.from.0 as int] != usize::MAX || stack@.contains(e.from) by {
                        if comp_of@[e.from.0 as int] == usize::MAX {
                            assert(old_stack.contains(e.from));
                            let k = choose|k: int| 0 <= k < old_stack.len() && old_stack[k] == e.from;
                            if k == old_stack.len() - 1 {
                                assert(e.from == node);
                            } else {
                                assert(stack@[k] == e.from);
                            }
                        }
                    }
                }
                continue;
            }
            proof {
                assert(reachable(adj, seed.0 as nat, x as nat)) by {
                    if !reachable(adj, seed.0 as nat, x as nat) {
                        assert(old_stack.contains(node));
                        let k = choose|k: int| 0 <= k < old_stack.len() && old_stack[k] == node;
                        assert(reachable(adj, old_stack[k].0 as nat, seed.0 as nat));
                        assert(ord0.contains(NodeId(x as nat as u32)));
                        let py = choose|py: int| 0 <= py < ord0.len() && ord0[py] == NodeId(x as nat as u32);
                        let m = order@.len() as int;
                        assert(ord0[py].0 == x);
                        assert(ord0[m] == seed);
                        lemma_finish_later(adj, ord0, py, m);
                        let r = choose|r: int| m < r < ord0.len() && #[trigger] mutual(adj, ord0[py].0 as nat, ord0[r].0 as nat);
                        let w = ord0[r].0 as nat;
                        assert(comp_of@[w as int] != usize::MAX && comp_of@[w as int] < cid);
                        assert(mutual(adj, w, x as nat));
                        assert(comp_of@[x as int] == comp_of@[w as int]);
                    }
                }
                assert forall|e: Edge| #[trigger] has_edge(adj, e) && comp_of@[e.to.0 as int] == cid
                    implies comp_of@[e.from.0 as int] != usize::MAX || stack@.contains(e.from) || e.from == node by {
                    if comp_of@[e.from.0 as int] == usize::MAX {
                        assert(old_stack.contains(e.from));
                        let k = choose|k: int| 0 <= k < old_stack.len() && old_stack[k] == e.from;
                        if k < old_stack.len() - 1 {
                            assert(stack@[k] == e.from);
                        }
                    }
                }
            }
            let ghost old_comp = comp_of@;
            let ghost old_list = comps@[cid as int]@;
            let ghost old_comps = comps@;
            proof {
                lemma_count_false_set(labeled, x as int);
                labeled = labeled.update(x as int, true);
            }
            comp_of.set(x, cid);
            comps[cid].push(node);
            proof {
                assert(comps@[cid as int]@ == old_list.push(node));
                assert forall|c: int| 0 <= c < cid implies comp_ok(adj, comp_of@, (#[trigger] comps@[c])@, c) by {
                    assert(comps@[c] == old_comps[c]);
                    assert(comp_ok(adj, old_comp, old_comps[c]@, c));
                    let cl = comps@[c]@;
                    assert forall|a: int| 0 <= a < cl.len() implies (#[trigger] cl[a]).0 < adj.len()
                        && comp_of@[cl[a].0 as int] == c
                        && reachable(adj, cl[a].0 as nat, cl[0].0 as nat) by {
                        assert(old_comp[cl[a].0 as int] == c);
                    }
                }
                if old_list.len() == 0 {
                    assert(node == seed);
                }
                let cl = comps@[cid as int]@;
                assert(!old_list.contains(node)) by {
                    if old_list.contains(node) {
                        let a = choose|a: int| 0 <= a < old_list.len() && old_list[a] == node;
                        assert(old_comp[old_list[a].0 as int] == cid);
                    }
                }
                assert forall|i: int, j: int| 0 <= i < j < cl.len() implies cl[i] != cl[j] by {
                    if j == cl.len() - 1 {
                        assert(cl[i] == old_list[i]);
                    } else {
                        assert(cl[i] == old_list[i] && cl[j] == old_list[j]);
                    }
                }
                assert(old_stack.contains(node));
                assert(reachable(adj, x as nat, seed.0 as nat)) by {
                    let k = choose|k: int| 0 <= k < old_stack.len() && old_stack[k] == node;
                    assert(reachable(adj, old_stack[k].0 as nat, seed.0 as nat));
                }
                assert forall|a: int| 0 <= a < cl.len() implies (#[trigger] cl[a]).0 < n
                    && comp_of@[cl[a].0 as int] == cid
                    && reachable(adj, cl[a].0 as nat, seed.0 as nat) by {
                    if a < old_list.len() {
                        assert(cl[a] == old_list[a]);
                    }
                }
                assert forall|v: nat| v < n && comp_of@[v as int] == cid implies #[trigger] cl.contains(NodeId(v as u32)) by {
                    if v == x {
                        assert(cl[cl.len() - 1] == NodeId(v as u32));
                    } else {
                        assert(old_list.contains(NodeId(v as u32)));
                        let a = choose|a: int| 0 <= a < old_list.len() && old_list[a] == NodeId(v as u32);
                        assert(cl[a] == NodeId(v as u32));
                    }
                }
                assert forall|a: int| 0 <= a < cl.len() implies reachable(adj, seed.0 as nat, (#[trigger] cl[a]).0 as nat) by {
                    if a < old_list.len() {
                        assert(cl[a] == old_list[a]);
                    }
                }
                assert forall|i: int| order@.len() < i < ord0.len() implies #[trigger] comp_of@[ord0[i].0 as int] != usize::MAX
                    && comp_of@[ord0[i].0 as int] < cid by {
                    assert(old_comp[ord0[i].0 as int] != usize::MAX);
                }
                assert forall|y: nat, v: nat|
                    y < n && v < n && comp_of@[y as int] < cid && #[trigger] mutual(adj, y, v)
                    implies comp_of@[v as int] == comp_of@[y as int] by {
                    assert(old_comp[y as int] == comp_of@[y as int]);
                    assert(old_comp[v as int] == old_comp[y as int]);
                }
                assert forall|e: Edge| #[trigger] has_edge(adj, e) && comp_of@[e.to.0 as int] == cid && e.to.0 != x
                    implies comp_of@[e.from.0 as int] != usize::MAX || stack@.contains(e.from) by {
                    assert(old_comp[e.to.0 as int] == cid);
                }
            }
            let tb = t.neighbors(node);
            let tm = tb.len();
            let mut j: usize = 0;
            while j < tm
                invariant
                    adj == g@,
                    tadj == t@,
                    tadj == transposed(adj),
                    n == adj.len(),
                    well_formed_adj(adj),
                    x < n,
                    node.0 == x,
                    seed.0 < n,
                    reachable(adj, x as nat, seed.0 as nat),
                    tb@ == tadj[x as int],
                    tm == tb@.len(),
                    j <= tm,
                    comp_of@.len() == n,
                    forall|k: int| 0 <= k < stack@.len() ==> (#[trigger] stack@[k]).0 < n
                        && reachable(adj, stack@[k].0 as nat, seed.0 as nat),
                    forall|e: Edge| #[trigger] has_edge(adj, e) && comp_of@[e.to.0 as int] == cid && e.to.0 != x
                        ==> comp_of@[e.from.0 as int] != usize::MAX || stack@.contains(e.from),
                    forall|k: int| 0 <= k < j ==> comp_of@[(#[trigger] tb@[k]).to.0 as int] != usize::MAX
                        || stack@.contains(tb@[k].to),
                decreases tm - j,
            {
                let f = tb[j];
                let y = f.to.index();
                proof {
                    assert(tadj[x as int][j as int] == f);
                    lemma_transposed_edge(adj, x as int, j as int);
                    let (i, k) = choose|i: int, k: int|
                        0 <= i < adj.len() && 0 <= k < adj[i].len() && #[trigger] adj[i][k] == reversed(f);
                    assert(adj[i][k] == reversed(f));
                    assert(has_edge(adj, reversed(f))) by {
                        assert(adj[reversed(f).from.0 as int][k] == reversed(f));
                    }
                    lemma_reach_prepend(adj, x as nat, seed.0 as nat, reversed(f));
                }
                let ghost prev = stack@;
                if comp_of[y] == usize::MAX {
                    stack.push(f.to);
                    proof {
                        assert forall|k: int| 0 <= k < stack@.len() implies (#[trigger] stack@[k]).0 < n
                            && reachable(adj, stack@[k].0 as nat, seed.0 as nat) by {
                            if k < prev.len() {
                                assert(stack@[k] == prev[k]);
                            }
                        }
                        assert(stack@[prev.len() as int] == f.to);
                    }
                }
                proof {
                    assert forall|e: Edge| #[trigger] has_edge(adj, e) && comp_of@[e.to.0 as int] == cid && e.to.0 != x
                        implies comp_of@[e.from.0 as int] != usize::MAX || stack@.contains(e.from) by {
                        if comp_of@[e.from.0 as int] == usize::MAX {
                            let k = choose|k: int| 0 <= k < prev.len() && prev[k] == e.from;
                            assert(stack@[k] == e.from);
                        }
                    }
                    assert forall|k: int| 0 <= k < j + 1 implies comp_of@[(#[trigger] tb@[k]).to.0 as int] != usize::MAX
                        || stack@.contains(tb@[k].to) by {
                        if k < j && comp_of@[tb@[k].to.0 as int] == usize::MAX {
                            let q = choose|q: int| 0 <= q < prev.len() && prev[q] == tb@[k].to;
                            assert(stack@[q] == tb@[k].to);
                        }
                    }
                }
                j = j + 1;
            }
            proof {
                assert forall|e: Edge| #[trigger] has_edge(adj, e) && comp_of@[e.to.0 as int] == cid
                    implies comp_of@[e.from.0 as int] != usize::MAX || stack@.contains(e.from) by {
                    if e.to.0 == x {
                        let k0 = choose|k: int| 0 <= k < adj[e.from.0 as int].len() && adj[e.from.0 as int][k] == e;
                        assert(adj[e.from.0 as int][k0] == e);
                        lemma_edge_in_transposed(adj, e.from.0 as int, k0);
                        assert(tadj[x as int].contains(reversed(e)));
                        let k = choose|k: int| 0 <= k < tadj[x as int].len() && tadj[x as int][k] == reversed(e);
                        assert(tb@[k] == reversed(e));
                        assert(tb@[k].to == e.from);
                    }
                }
            }
        }
        proof {
            assert(comps@[cid as int]@.len() > 0) by {
                if comps@[cid as int]@.len() == 0 {
                    assert(stack@ == seq![seed]);
                }
            }
            assert(comp_ok(adj, comp_of@, comps@[cid as int]@, cid as int));
            let cl = comps@[cid as int]@;
            assert(comp_of@[seed.0 as int] == cid) by {
                assert(cl[0] == seed);
            }
            let inset = |z: nat| z < n && comp_of@[z as int] == cid;
            assert forall|e: Edge|
                has_edge(adj, e) && #[trigger] inset(e.to.0 as nat) && reachable(adj, seed.0 as nat, e.from.0 as nat)
                implies inset(e.from.0 as nat) by {
                let k0 = choose|k: int| 0 <= k < adj[e.from.0 as int].len() && adj[e.from.0 as int][k] == e;
                assert(adj[e.from.0 as int][k0] == e);
                assert(e.from.0 < n && e.to.0 < n);
                assert(comp_of@[e.from.0 as int] != usize::MAX);
                if comp_of@[e.from.0 as int] != cid {
                    assert(cl.contains(NodeId(e.to.0 as nat as u32)));
                    let a = choose|a: int| 0 <= a < cl.len() && cl[a] == NodeId(e.to.0 as nat as u32);
                    assert(reachable(adj, cl[a].0 as nat, seed.0 as nat));
                    lemma_reach_prepend(adj, e.to.0 as nat, seed.0 as nat, e);
                    assert(mutual(adj, e.from.0 as nat, seed.0 as nat));
                    assert(comp_of@[seed.0 as int] == comp_of@[e.from.0 as int]);
                }
            }
            assert forall|y: nat, v: nat|
                y < n && v < n && comp_of@[y as int] != usize::MAX && #[trigger] mutual(adj, y, v)
                implies comp_of@[v as int] == comp_of@[y as int] by {
                if comp_of@[y as int] == cid {
                    assert(cl.contains(NodeId(y as u32)));
                    let a = choose|a: int| 0 <= a < cl.len() && cl[a] == NodeId(y as u32);
                    assert(cl[a].0 == y);
                    assert(mutual(adj, y, seed.0 as nat));
                    assert(mutual(adj, v, y));
                    lemma_mutual_trans(adj, v, y, seed.0 as nat);
                    let wk = choose|wk: Seq<Edge>| #[trigger] is_walk(adj, v, seed.0 as nat, wk);
                    lemma_back_closed(adj, seed.0 as nat, v, inset, wk);
                }
            }
            assert forall|i: int| order@.len() <= i < ord0.len() implies #[trigger] comp_of@[ord0[i].0 as int] != usize::MAX by {
                if i == order@.len() {
                    assert(ord0[i] == seed);
                }
            }
        }
    }
    // Order the components by their smallest node (stable selection).
    proof {
        assert forall|x: int| 0 <= x < n implies #[trigger] comp_of@[x] != usize::MAX && comp_of@[x] < comps@.len() by {
            if comp_of@[x] == usize::MAX {
                assert(order@.contains(NodeId(x as u32)));
            }
        }
    }
    let mut rest = comps;
    let mut keys: Vec<u32> = Vec::new();
    let mut i: usize = 0;
    while i < rest.len()
        invariant
            i <= rest@.len(),
            keys@.len() == i,
            forall|k: int| 0 <= k < i ==> #[trigger] keys@[k] == comp_key(rest@[k]@),
        decreases rest@.len() - i,
    {
        keys.push(min_id(&rest[i]));
        i = i + 1;
    }
    let ghost mut rlab: Seq<int> = Seq::new(rest@.len(), |k: int| k);
    let ghost mut lab: Seq<int> = Seq::empty();
    let ghost total = rest@.len();
    let mut sorted: Vec<Vec<NodeId>> = Vec::new();
    while rest.len() > 0
        invariant
            adj == g@,
            n == adj.len(),
            comp_of@.len() == n,
            forall|x: int| 0 <= x < n ==> #[trigger] comp_of@[x] != usize::MAX && comp_of@[x] < total,
            keys@.len() == rest@.len(),
            rlab.len() == rest@.len(),
            lab.len() == sorted@.len(),
            (lab + rlab).no_duplicates(),
            forall|k: int| 0 <= k < (lab + rlab).len() ==> 0 <= #[trigger] (lab + rlab)[k] < total,
            lab.len() + rlab.len() == total,
            forall|k: int| 0 <= k < rest@.len() ==> #[trigger] keys@[k] == comp_key(rest@[k]@),
            forall|k: int| 0 <= k < rest@.len() ==> comp_ok(adj, comp_of@, (#[trigger] rest@[k])@, rlab[k]),
            forall|k: int| 0 <= k < sorted@.len() ==> comp_ok(adj, comp_of@, (#[trigger] sorted@[k])@, lab[k]),
            forall|a: int, b: int| 0 <= a < b < sorted@.len() ==> comp_key((#[trigger] sorted@[a])@) <= comp_key((#[trigger] sorted@[b])@),
            forall|a: int, b: int| 0 <= a < sorted@.len() && 0 <= b < rest@.len() ==> comp_key((#[trigger] sorted@[a])@) <= comp_key((#[trigger] rest@[b])@),
        decreases rest@.len(),
    {
        let mut best: usize = 0;
        let mut k: usize = 1;
        while k < keys.len()
            invariant
                best < k <= keys@.len(),
                forall|q: int| 0 <= q < k ==> keys@[best as int] <= #[trigger] keys@[q],
            decreases keys@.len() - k,
        {
            if keys[k] < keys[best] {
                best = k;
            }
            k = k + 1;
        }
        let ghost old_rest = rest@;
        let ghost old_sorted = sorted@;
        let ghost old_all = lab + rlab;
        let ghost old_keys = keys@;
        let c = rest.remove(best);
        keys.remove(best);
        sorted.push(c);
        proof {
            let l = rlab[best as int];
            lab = lab.push(l);
            rlab = rlab.remove(best as int);
            assert(old_rest[best as int] == c);
            assert forall|q: int| 0 <= q < rest@.len() implies rest@[q] == old_rest[if q < best { q } else { q + 1 }] by {}
            let all = lab + rlab;
            assert(all.len() == old_all.len());
            let ls = old_sorted.len() as int;
            assert forall|q: int| 0 <= q < all.len() implies #[trigger] all[q] == old_all[
                if q < ls { q } else if q == ls { ls + best } else if q <= ls + best { q - 1 } else { q }
            ] by {
            }
            assert forall|p: int, q: int| 0 <= p < q < all.len() implies all[p] != all[q] by {
                let fp = if p < ls { p } else if p == ls { ls + best } else if p <= ls + best { p - 1 } else { p };
                let fq = if q < ls { q } else if q == ls { ls + best } else if q <= ls + best { q - 1 } else { q };
                assert(all[p] == old_all[fp] && all[q] == old_all[fq]);
                assert(fp != fq);
            }
            assert forall|q: int| 0 <= q < all.len() implies 0 <= #[trigger] all[q] < total by {
                let fq = if q < ls { q } else if q == ls { ls + best } else if q <= ls + best { q - 1 } else { q };
                assert(all[q] == old_all[fq]);
            }
            assert forall|q: int| 0 <= q < rest@.len() implies #[trigger] keys@[q] == comp_key(rest@[q]@) by {
                if q >= best {
                    assert(keys@[q] == old_keys[q + 1]);
                }
            }
            assert forall|q: int| 0 <= q < rest@.len() implies comp_ok(adj, comp_of@, (#[trigger] rest@[q])@, rlab[q]) by {
                let fq = if q < best { q } else { q + 1 };
                assert(rest@[q] == old_rest[fq]);
            }
            assert forall|q: int| 0 <= q < sorted@.len() implies comp_ok(adj, comp_of@, (#[trigger] sorted@[q])@, lab[q]) by {
                if q < old_sorted.len() {
                    assert(sorted@[q] == old_sorted[q]);
                }
            }
            assert forall|a: int, b: int| 0 <= a < b < sorted@.len() implies comp_key((#[trigger] sorted@[a])@) <= comp_key((#[trigger] sorted@[b])@) by {
                assert(sorted@[a] == old_sorted[a]);
                if b < old_sorted.len() {
                    assert(sorted@[b] == old_sorted[b]);
                } else {
                    assert(sorted@[b] == old_rest[best as int]);
                }
            }
            assert forall|a: int, b: int| 0 <= a < sorted@.len() && 0 <= b < rest@.len() implies comp_key((#[trigger] sorted@[a])@) <= comp_key((#[trigger] rest@[b])@) by {
                let fb = if b < best { b } else { b + 1 };
                assert(rest@[b] == old_rest[fb]);
                if a < old_sorted.len() {
                    assert(sorted@[a] == old_sorted[a]);
                } else {
                    assert(old_keys[best as int] <= old_keys[fb]);
                }
            }
        }
    }
    proof {
        assert(lab + rlab =~= lab);
        let cv = comps_view(sorted@);
        assert forall|q: int| 0 <= q < cv.len() implies cv[q] == sorted@[q]@ by {}
        assert forall|i: int, a: int| 0 <= i < cv.len() && 0 <= a < cv[i].len() implies (#[trigger] cv[i][a]).0 < n by {
            assert(comp_ok(adj, comp_of@, sorted@[i]@, lab[i]));
        }
        assert forall|v: nat| v < n implies #[trigger] listed(cv, v) by {
            let l = comp_of@[v as int] as int;
            // some component carries the label of `v`
            assert(lab.len() == total) by {
                assert(lab.len() + rlab.len() == total);
            }
            assert(l < total);
            lemma_labels_cover(lab, total);
            assert(lab.contains(l));
            let q = choose|q: int| 0 <= q < lab.len() && lab[q] == l;
            assert(comp_ok(adj, comp_of@, sorted@[q]@, lab[q]));
            assert(sorted@[q]@.contains(NodeId(v as u32)));
            let a = choose|a: int| 0 <= a < sorted@[q]@.len() && sorted@[q]@[a] == NodeId(v as u32);
            assert(cv[q][a].0 == v);
        }
        assert forall|i: int, a: int, j: int, b: int|
            0 <= i < cv.len() && 0 <= a < cv[i].len() && 0 <= j < cv.len() && 0 <= b
                < cv[j].len() && #[trigger] cv[i][a] == #[trigger] cv[j][b] implies i == j && a == b by {
            assert(comp_ok(adj, comp_of@, sorted@[i]@, lab[i]));
            assert(comp_ok(adj, comp_of@, sorted@[j]@, lab[j]));
            assert(comp_of@[cv[i][a].0 as int] == lab[i]);
            assert(comp_of@[cv[j][b].0 as int] == lab[j]);
            assert(i == j);
            assert(sorted@[i]@.no_duplicates());
        }
        assert forall|i: int, j: int| 0 <= i < j < sorted@.len() implies comp_key((#[trigger] sorted@[i])@) < comp_key((#[trigger] sorted@[j])@) by {
            assert(comp_ok(adj, comp_of@, sorted@[i]@, lab[i]));
            assert(comp_ok(adj, comp_of@, sorted@[j]@, lab[j]));
            lemma_comp_key(sorted@[i]@);
            lemma_comp_key(sorted@[j]@);
            let a = choose|a: int| 0 <= a < sorted@[i]@.len() && (#[trigger] sorted@[i]@[a]).0 == comp_key(sorted@[i]@);
            let b = choose|b: int| 0 <= b < sorted@[j]@.len() && (#[trigger] sorted@[j]@[b]).0 == comp_key(sorted@[j]@);
            if comp_key(sorted@[i]@) == comp_key(sorted@[j]@) {
                assert(sorted@[i]@[a] == sorted@[j]@[b]);
                assert(comp_of@[sorted@[i]@[a].0 as int] == lab[i]);
                assert(comp_of@[sorted@[j]@[b].0 as int] == lab[j]);
            }
        }
        assert forall|i: int| 0 <= i < sorted@.len() implies (#[trigger] sorted@[i])@.len() > 0 by {
            assert(comp_ok(adj, comp_of@, sorted@[i]@, lab[i]));
        }
        assert forall|i: int, a: int|
            0 <= i < sorted@.len() && 0 <= a < sorted@[i]@.len() implies reachable(
                adj,
                (#[trigger] sorted@[i]@[a]).0 as nat,
                sorted@[i]@[0].0 as nat,
            ) by {
            assert(comp_ok(adj, comp_of@, sorted@[i]@, lab[i]));
        }
        assert forall|i: int, a: int, j: int, b: int|
            0 <= i < cv.len() && 0 <= a < cv[i].len() && 0 <= j < cv.len() && 0 <= b
                < cv[j].len() implies (mutual(adj, (#[trigger] cv[i][a]).0 as nat, (#[trigger] cv[j][b]).0 as nat)
                <==> i == j) by {
            assert(comp_ok(adj, comp_of@, sorted@[i]@, lab[i]));
            assert(comp_ok(adj, comp_of@, sorted@[j]@, lab[j]));
            let xa = cv[i][a].0 as nat;
            let yb = cv[j][b].0 as nat;
            let c0 = cv[i][0].0 as nat;
            assert(comp_of@[xa as int] == lab[i]);
            assert(comp_of@[yb as int] == lab[j]);
            if i == j {
                assert(mutual(adj, xa, c0));
                assert(mutual(adj, c0, yb));
                lemma_mutual_trans(adj, xa, c0, yb);
            }
            if mutual(adj, xa, yb) {
                assert(comp_of@[yb as int] == comp_of@[xa as int]);
                assert(lab[i] == lab[j]);
                assert(lab.no_duplicates());
            }
        }
    }
    sorted
}

/// Distinct labels below `total`, `total` of them, include every label.
proof fn lemma_labels_cover(lab: Seq<int>, total: nat)
    requires
        lab.no_duplicates(),
        lab.len() == total,
        forall|k: int| 0 <= k < lab.len() ==> 0 <= #[trigger] lab[k] < total,
    ensures
        forall|l: int| 0 <= l < total ==> #[trigger] lab.contains(l),
{
    let s = lab.to_set();
    lab.unique_seq_to_set();
    let r = Set::new(|l: int| 0 <= l < total);
    assert(s.subset_of(r));
    vstd::set_lib::lemma_int_range(0, total as int);
    assert(r =~= vstd::set_lib::set_int_range(0, total as int));
    vstd::set_lib::lemma_len_subset(s, r);
    vstd::set_lib::lemma_subset_equality(s, r);
    assert forall|l: int| 0 <= l < total implies #[trigger] lab.contains(l) by {
        assert(r.contains(l));
    }
}

/// How a list of components fails to partition the nodes.
#[derive(Debug, Clone, Copy, PartialEq, Eq, Structural)]
pub enum PartitionViolation {
    /// A listed id is not a node of the graph.
    OutOfRange(u32),
    /// A node is listed twice.
    Duplicate(u32),
    /// A node is not listed.
    Missing(u32),
}

/// Checks whether `comps` partitions the nodes `0..n`: returns `None`
/// exactly when it does, and otherwise a violation of the kind found.
pub fn partition_violation(n: usize, comps: &[Vec<NodeId>]) -> (r: Option<PartitionViolation>)
    requires
        n <= u32::MAX + 1,
    ensures
        r is None <==> is_partition(n as nat, comps_view(comps@)),
        r matches Some(PartitionViolation::OutOfRange(id)) ==> id >= n && exists|i: int, a: int|
            0 <= i < comps@.len() && 0 <= a < comps@[i]@.len() && (#[trigger] comps@[i]@[a]).0 == id,
        r matches Some(PartitionViolation::Duplicate(id)) ==> exists|i: int, a: int, j: int, b: int|
            0 <= i < comps@.len() && 0 <= a < comps@[i]@.len() && 0 <= j < comps@.len() && 0 <= b
                < comps@[j]@.len() && (i != j || a != b) && (#[trigger] comps@[i]@[a]).0 == id
                && (#[trigger] comps@[j]@[b]).0 == id,
        r matches Some(PartitionViolation::Missing(id)) ==> id < n && !listed(comps_view(comps@), id as nat),
{
    let ghost cv = comps_view(comps@);
    proof {
        assert forall|i: int| 0 <= i < cv.len() implies #[trigger] cv[i] == comps@[i]@ by {}
    }
    let mut seen = filled(false, n);
    // where each seen node was listed
    let ghost mut at: Seq<(int, int)> = Seq::new(n as nat, |x: int| (0int, 0int));
    let mut i: usize = 0;
    while i < comps.len()
        invariant
            cv == comps_view(comps@),
            forall|q: int| 0 <= q < cv.len() ==> #[trigger] cv[q] == comps@[q]@,
            i <= comps@.len(),
            seen@.len() == n,
            at.len() == n,
            forall|q: int, a: int| 0 <= q < i && 0 <= a < cv[q].len() ==> (#[trigger] cv[q][a]).0 < n
                && seen@[cv[q][a].0 as int] && at[cv[q][a].0 as int] == (q, a),
            forall|v: int| 0 <= v < n && #[trigger] seen@[v] ==> 0 <= at[v].0 < i && 0 <= at[v].1 < cv[at[v].0].len()
                && cv[at[v].0][at[v].1].0 == v,
        decreases comps@.len() - i,
    {
        let c = &comps[i];
        let mut a: usize = 0;
        while a < c.len()
            invariant
                cv == comps_view(comps@),
                forall|q: int| 0 <= q < cv.len() ==> #[trigger] cv[q] == comps@[q]@,
                i < comps@.len(),
                c@ == cv[i as int],
                a <= c@.len(),
                seen@.len() == n,
                at.len() == n,
                forall|q: int, b: int| 0 <= q < i && 0 <= b < cv[q].len() ==> (#[trigger] cv[q][b]).0 < n
                    && seen@[cv[q][b].0 as int] && at[cv[q][b].0 as int] == (q, b),
                forall|b: int| 0 <= b < a ==> (#[trigger] cv[i as int][b]).0 < n
                    && seen@[cv[i as int][b].0 as int] && at[cv[i as int][b].0 as int] == (i as int, b),
                forall|v: int| 0 <= v < n && #[trigger] seen@[v] ==> 0 <= at[v].0 <= i && 0 <= at[v].1 < cv[at[v].0].len()
                    && cv[at[v].0][at[v].1].0 == v && (at[v].0 == i ==> at[v].1 < a),
            decreases c@.len() - a,
        {
            let x = c[a].0;
            if x as usize >= n {
                proof {
                    assert(cv[i as int][a as int].0 == x);
                    assert(comps@[i as int]@[a as int].0 == x);
                }
                return Some(PartitionViolation::OutOfRange(x));
            }
            if seen[x as usize] {
                proof {
                    let (q, b) = at[x as int];
                    assert(cv[q][b].0 == x);
                    assert(comps@[q]@[b].0 == x);
                    assert(comps@[i as int]@[a as int].0 == x);
                    assert(cv[i as int][a as int].0 == x);
                }
                return Some(PartitionViolation::Duplicate(x));
            }
            seen.set(x as usize, true);
            proof {
                at = at.update(x as int, (i as int, a as int));
            }
            a = a + 1;
        }
        i = i + 1;
    }
    let mut v: usize = 0;
    while v < n
        invariant
            cv == comps_view(comps@),
            forall|q: int| 0 <= q < cv.len() ==> #[trigger] cv[q] == comps@[q]@,
            v <= n,
            n <= u32::MAX + 1,
            seen@.len() == n,
            at.len() == n,
            forall|q: int, a: int| 0 <= q < cv.len() && 0 <= a < cv[q].len() ==> (#[trigger] cv[q][a]).0 < n
                && seen@[cv[q][a].0 as int] && at[cv[q][a].0 as int] == (q, a),
            forall|w: int| 0 <= w < n && #[trigger] seen@[w] ==> 0 <= at[w].0 < cv.len() && 0 <= at[w].1 < cv[at[w].0].len()
                && cv[at[w].0][at[w].1].0 == w,
            forall|w: int| 0 <= w < v ==> #[trigger] seen@[w],
        decreases n - v,
    {
        if !seen[v] {
            proof {
                if listed(cv, v as nat) {
                    let (q, a) = choose|q: int, a: int| 0 <= q < cv.len() && 0 <= a < cv[q].len() && (#[trigger] cv[q][a]).0 == v;
                    assert(seen@[cv[q][a].0 as int]);
                }
            }
            return Some(PartitionViolation::Missing(v as u32));
        }
        v = v + 1;
    }
    proof {
        assert forall|w: nat| w < n implies #[trigger] listed(cv, w) by {
            assert(seen@[w as int]);
            let (q, a) = at[w as int];
            assert(cv[q][a].0 == w);
        }
        assert forall|q: int, a: int, j: int, b: int|
            0 <= q < cv.len() && 0 <= a < cv[q].len() && 0 <= j < cv.len() && 0 <= b
                < cv[j].len() && #[trigger] cv[q][a] == #[trigger] cv[j][b] implies q == j && a == b by {
            assert(at[cv[q][a].0 as int] == (q, a));
            assert(at[cv[j][b].0 as int] == (j, b));
        }
    }
    None
}

/// Checks that every node of `g` lies in exactly one of `comps`.
pub fn assert_components_partition(g: &Graph, comps: &[Vec<NodeId>])
    requires
        is_partition(g@.len(), comps_view(comps@)),
{
    proof {
        use_type_invariant(g);
        g.lemma_inv();
    }
    let r = partition_violation(g.node_count(), comps);
    assert(r is None);
}

} // verus!
