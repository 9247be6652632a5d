//! What reversing every edge keeps: weak connection, mutual reachability,
//! and with them both component listings.

use vstd::prelude::*;
use crate::graph::{Edge, NodeId, all_edges, lemma_transpose_reverses_edges, reversed, transposed, well_formed_adj};
use crate::paths::{
    has_edge, is_walk, lemma_reach_prepend, lemma_walk_drop_last, lemma_walk_empty, lemma_wc_closed,
    lemma_wc_linked, lemma_wc_refl, lemma_wc_trans, linked, mutual, reachable, weakly_connected,
};
use crate::cli::{
    ids_of, lemma_strong_components_unique, lemma_weak_components_unique, strong_components,
    weak_components,
};

verus! {

/// Two nodes are linked in the transposed graph exactly when they are
/// linked in the graph.
proof fn lemma_linked_transposed(adj: Seq<Seq<Edge>>, a: nat, b: nat)
    requires
        well_formed_adj(adj),
    ensures
        linked(transposed(adj), a, b) <==> linked(adj, a, b),
{
    let t = transposed(adj);
    if linked(adj, a, b) {
        let e = choose|e: Edge|
            #[trigger] has_edge(adj, e) && ((e.from.0 == a && e.to.0 == b) || (e.from.0 == b && e.to.0 == a));
        lemma_transpose_reverses_edges(adj, e);
        assert(has_edge(t, reversed(e)));
    }
    if linked(t, a, b) {
        let f = choose|f: Edge|
            #[trigger] has_edge(t, f) && ((f.from.0 == a && f.to.0 == b) || (f.from.0 == b && f.to.0 == a));
        lemma_transpose_reverses_edges(adj, reversed(f));
        assert(reversed(reversed(f)) == f);
        assert(has_edge(adj, reversed(f)));
    }
}

/// Weak connection in the transposed graph is weak connection in the graph.
proof fn lemma_wc_transposed(adj: Seq<Seq<Edge>>, a: nat, b: nat)
    requires
        well_formed_adj(adj),
    ensures
        weakly_connected(transposed(adj), a, b) <==> weakly_connected(adj, a, b),
{
    let t = transposed(adj);
    if weakly_connected(t, a, b) {
        let closed = |y: nat| weakly_connected(adj, a, y);
        lemma_wc_refl(adj, a);
        assert forall|x: nat, y: nat| #[trigger] closed(x) && linked(t, x, y) implies #[trigger] closed(y) by {
            lemma_linked_transposed(adj, x, y);
            lemma_wc_linked(adj, x, y);
            lemma_wc_trans(adj, a, x, y);
        }
        lemma_wc_closed(t, closed, a, b);
    }
    if weakly_connected(adj, a, b) {
        let closed = |y: nat| weakly_connected(t, a, y);
        lemma_wc_refl(t, a);
        assert forall|x: nat, y: nat| #[trigger] closed(x) && linked(adj, x, y) implies #[trigger] closed(y) by {
            lemma_linked_transposed(adj, x, y);
            lemma_wc_linked(t, x, y);
            lemma_wc_trans(t, a, x, y);
        }
        lemma_wc_closed(adj, closed, a, b);
    }
}

/// The end of a walk reaches its start in the transposed graph.
proof fn lemma_walk_transposed(adj: Seq<Seq<Edge>>, s: nat, v: nat, p: Seq<Edge>)
    requires
        well_formed_adj(adj),
        is_walk(adj, s, v, p),
    ensures
        reachable(transposed(adj), v, s),
    decreases p.len(),
{
    let t = transposed(adj);
    if p.len() == 0 {
        lemma_walk_empty(t, s);
    } else {
        lemma_walk_drop_last(adj, s, v, p);
        let e = p.last();
        lemma_walk_transposed(adj, s, e.from.0 as nat, p.drop_last());
        lemma_transpose_reverses_edges(adj, e);
        lemma_reach_prepend(t, e.from.0 as nat, s, reversed(e));
    }
}

/// `b` is reachable from `a` in the transposed graph exactly when `a` is
/// reachable from `b` in the graph.
proof fn lemma_reach_transposed(adj: Seq<Seq<Edge>>, a: nat, b: nat)
    requires
        well_formed_adj(adj),
    ensures
        reachable(transposed(adj), a, b) <==> reachable(adj, b, a),
{
    let t = transposed(adj);
    if reachable(adj, b, a) {
        let p = choose|p: Seq<Edge>| #[trigger] is_walk(adj, b, a, p);
        lemma_walk_transposed(adj, b, a, p);
    }
    if reachable(t, a, b) {
        let q = choose|q: Seq<Edge>| #[trigger] is_walk(t, a, b, q);
        assert(well_formed_adj(t)) by {
            lemma_transposed_well_formed(adj);
        }
        lemma_walk_transposed(t, a, b, q);
        lemma_double_transpose_edges(adj);
        assert(reachable(transposed(t), b, a));
        let r = choose|r: Seq<Edge>| #[trigger] is_walk(transposed(t), b, a, r);
        lemma_walk_same_edges(transposed(t), adj, b, a, r);
    }
}

/// The transposed lists are well formed too.
proof fn lemma_transposed_well_formed(adj: Seq<Seq<Edge>>)
    requires
        well_formed_adj(adj),
    ensures
        well_formed_adj(transposed(adj)),
{
    let t = transposed(adj);
    assert forall|i: int, j: int| 0 <= i < t.len() && 0 <= j < t[i].len() implies #[trigger] t[i][j].from.0 == i
        && (t[i][j].to.0 as int) < t.len() by {
        crate::graph::lemma_transposed_edge(adj, i, j);
        let (a, k) = choose|a: int, k: int|
            0 <= a < adj.len() && 0 <= k < adj[a].len() && #[trigger] adj[a][k] == reversed(t[i][j]);
        assert(adj[a][k].from.0 == a);
    }
}

/// Transposing twice gives back the same edges.
proof fn lemma_double_transpose_edges(adj: Seq<Seq<Edge>>)
    requires
        well_formed_adj(adj),
    ensures
        forall|e: Edge| #[trigger] has_edge(transposed(transposed(adj)), e) <==> has_edge(adj, e),
{
    lemma_transposed_well_formed(adj);
    let t = transposed(adj);
    assert forall|e: Edge| #[trigger] has_edge(transposed(t), e) <==> has_edge(adj, e) by {
        lemma_transpose_reverses_edges(adj, e);
        lemma_transpose_reverses_edges(t, reversed(e));
        assert(reversed(reversed(e)) == e);
    }
}

/// A walk over one set of edges is a walk over any graph with the same edges.
proof fn lemma_walk_same_edges(a1: Seq<Seq<Edge>>, a2: Seq<Seq<Edge>>, s: nat, v: nat, p: Seq<Edge>)
    requires
        is_walk(a1, s, v, p),
        forall|e: Edge| #[trigger] has_edge(a1, e) ==> has_edge(a2, e),
    ensures
        reachable(a2, s, v),
{
    assert forall|i: int| 0 <= i < p.len() implies has_edge(a2, #[trigger] p[i]) by {
        assert(has_edge(a1, p[i]));
    }
    assert(is_walk(a2, s, v, p));
}

/// Two nodes reach each other in the transposed graph exactly when they
/// reach each other in the graph.
proof fn lemma_mutual_transposed(adj: Seq<Seq<Edge>>, a: nat, b: nat)
    requires
        well_formed_adj(adj),
    ensures
        mutual(transposed(adj), a, b) <==> mutual(adj, a, b),
{
    lemma_reach_transposed(adj, a, b);
    lemma_reach_transposed(adj, b, a);
}

/// Law: reversing every edge does not change the weakly-connected
/// components: a listing is the weak-component listing of a graph exactly
/// when it is that of the transposed graph.
pub proof fn lemma_weak_components_transpose(adj: Seq<Seq<Edge>>, comps: Seq<Seq<NodeId>>)
    requires
        well_formed_adj(adj),
    ensures
        weak_components(transposed(adj), comps) <==> weak_components(adj, comps),
{
    let t = transposed(adj);
    assert forall|a: nat, b: nat| weakly_connected(t, a, b) == weakly_connected(adj, a, b) by {
        lemma_wc_transposed(adj, a, b);
    }
    let rt = |a: nat, b: nat| weakly_connected(t, a, b);
    let ra = |a: nat, b: nat| weakly_connected(adj, a, b);
    assert(rt =~= ra);
}

/// Law: the weak-component listing of the transposed graph equals that of
/// the graph, so `connected_components` gives the same result on a graph
/// and on its transpose.
pub proof fn lemma_weak_listing_same_after_transpose(
    adj: Seq<Seq<Edge>>,
    c1: Seq<Seq<NodeId>>,
    c2: Seq<Seq<NodeId>>,
)
    requires
        well_formed_adj(adj),
        weak_components(adj, c1),
        weak_components(transposed(adj), c2),
    ensures
        c1 == c2,
{
    lemma_weak_components_transpose(adj, c2);
    lemma_weak_components_unique(adj, c1, c2);
}

/// Law: reversing every edge does not change the strongly-connected
/// components: a listing is a strong-component listing of a graph exactly
/// when it is one of the transposed graph.
pub proof fn lemma_strong_components_transpose(adj: Seq<Seq<Edge>>, comps: Seq<Seq<NodeId>>)
    requires
        well_formed_adj(adj),
    ensures
        strong_components(transposed(adj), comps) <==> strong_components(adj, comps),
{
    let t = transposed(adj);
    assert forall|a: nat, b: nat| mutual(t, a, b) == mutual(adj, a, b) by {
        lemma_mutual_transposed(adj, a, b);
    }
    let rt = |a: nat, b: nat| mutual(t, a, b);
    let ra = |a: nat, b: nat| mutual(adj, a, b);
    assert(rt =~= ra);
    if strong_components(adj, comps) || strong_components(t, comps) {
        assert forall|i: int, a: int|
            0 <= i < comps.len() && 0 <= a < comps[i].len() implies reachable(
                t,
                (#[trigger] comps[i][a]).0 as nat,
                comps[i][0].0 as nat,
            ) == reachable(adj, comps[i][a].0 as nat, comps[i][0].0 as nat) by {
            let x = comps[i][a].0 as nat;
            let y = comps[i][0].0 as nat;
            assert(mutual(adj, x, y) == mutual(t, x, y));
            if strong_components(adj, comps) {
                assert(ra(x, y));
            } else {
                assert(rt(x, y));
            }
            lemma_reach_transposed(adj, x, y);
            lemma_reach_transposed(adj, y, x);
        }
    }
}


/// Law: `kosaraju` gives the same components on a graph and on its
/// transpose: as many, and at each position the same nodes (the order of
/// nodes inside a component is left open).
pub proof fn lemma_strong_listing_same_after_transpose(
    adj: Seq<Seq<Edge>>,
    c1: Seq<Seq<NodeId>>,
    c2: Seq<Seq<NodeId>>,
)
    requires
        well_formed_adj(adj),
        strong_components(adj, c1),
        strong_components(transposed(adj), c2),
    ensures
        c1.len() == c2.len(),
        forall|i: int, v: nat| 0 <= i < c1.len() ==> (#[trigger] ids_of(c1[i]).contains(v) <==> ids_of(c2[i]).contains(v)),
{
    lemma_strong_components_transpose(adj, c2);
    lemma_strong_components_unique(adj, c1, c2);
}

/// Number of times `e` occurs in `s`.
pub open spec fn occ(s: Seq<Edge>, e: Edge) -> nat
    decreases s.len(),
{
    if s.len() == 0 {
        0
    } else {
        occ(s.drop_last(), e) + if s.last() == e {
            1nat
        } else {
            0nat
        }
    }
}

/// Occurrences count what the multiset of a sequence counts.
proof fn lemma_occ_multiset(s: Seq<Edge>, e: Edge)
    ensures
        occ(s, e) == s.to_multiset().count(e),
    decreases s.len(),
{
    broadcast use vstd::multiset::group_multiset_axioms;
    if s.len() == 0 {
        s.to_multiset_ensures();
        assert(!s.contains(e));
    } else {
        lemma_occ_multiset(s.drop_last(), e);
        vstd::seq_lib::to_multiset_build(s.drop_last(), s.last());
        assert(s.drop_last().push(s.last()) =~= s);
    }
}

/// Occurrences add up over a concatenation.
proof fn lemma_occ_add(a: Seq<Edge>, b: Seq<Edge>, e: Edge)
    ensures
        occ(a + b, e) == occ(a, e) + occ(b, e),
    decreases b.len(),
{
    if b.len() == 0 {
        assert(a + b =~= a);
    } else {
        lemma_occ_add(a, b.drop_last(), e);
        assert((a + b).drop_last() =~= a + b.drop_last());
        assert((a + b).last() == b.last());
    }
}

/// Filtering keeps the occurrences of a kept edge and drops the others.
proof fn lemma_occ_filter(s: Seq<Edge>, p: spec_fn(Edge) -> bool, e: Edge)
    ensures
        occ(s.filter(p), e) == if p(e) {
            occ(s, e)
        } else {
            0
        },
    decreases s.len(),
{
    if s.len() == 0 {
        assert(s.filter(p) =~= Seq::<Edge>::empty()) by {
            s.lemma_filter_len(p);
        }
    } else {
        let q = s.drop_last();
        lemma_occ_filter(q, p, e);
        assert(q.push(s.last()) =~= s);
        q.lemma_filter_push(s.last(), p);
        if p(s.last()) {
            assert(q.filter(p).push(s.last()).drop_last() =~= q.filter(p));
        }
    }
}

/// Reversing every edge moves the occurrences of `rev e` to `e`.
proof fn lemma_occ_reversed(s: Seq<Edge>, e: Edge)
    ensures
        occ(s.map_values(|x: Edge| reversed(x)), e) == occ(s, reversed(e)),
    decreases s.len(),
{
    let r = s.map_values(|x: Edge| reversed(x));
    if s.len() > 0 {
        lemma_occ_reversed(s.drop_last(), e);
        assert(r.drop_last() =~= s.drop_last().map_values(|x: Edge| reversed(x)));
        assert(r.last() == reversed(s.last()));
        assert(reversed(reversed(e)) == e);
        assert(reversed(reversed(s.last())) == s.last());
    }
}

/// An edge that no entry equals does not occur.
proof fn lemma_occ_absent(s: Seq<Edge>, e: Edge)
    requires
        forall|i: int| 0 <= i < s.len() ==> s[i] != e,
    ensures
        occ(s, e) == 0,
    decreases s.len(),
{
    if s.len() > 0 {
        lemma_occ_absent(s.drop_last(), e);
    }
}

/// In well-formed lists, an edge occurs among all edges as often as in the
/// list of its start.
proof fn lemma_occ_all_edges(adj: Seq<Seq<Edge>>, e: Edge)
    requires
        forall|i: int, j: int| #![trigger adj[i][j]] 0 <= i < adj.len() && 0 <= j < adj[i].len() ==> adj[i][j].from.0 == i,
    ensures
        occ(all_edges(adj), e) == if (e.from.0 as int) < adj.len() {
            occ(adj[e.from.0 as int], e)
        } else {
            0
        },
    decreases adj.len(),
{
    if adj.len() > 0 {
        let pre = adj.drop_last();
        assert forall|i: int, j: int| #![trigger pre[i][j]] 0 <= i < pre.len() && 0 <= j < pre[i].len() implies pre[i][j].from.0 == i by {
            assert(pre[i] == adj[i]);
        }
        lemma_occ_all_edges(pre, e);
        lemma_occ_add(all_edges(pre), adj.last(), e);
        let last = adj.len() - 1;
        if e.from.0 as int != last {
            assert forall|j: int| 0 <= j < adj.last().len() implies adj.last()[j] != e by {
                assert(adj[last][j].from.0 == last);
            }
            lemma_occ_absent(adj.last(), e);
        }
        if (e.from.0 as int) < last {
            assert(pre[e.from.0 as int] == adj[e.from.0 as int]);
        }
    }
}

/// In the transposed lists, an edge occurs as often as its reversal occurs
/// in the graph's list of the reversal's start.
proof fn lemma_occ_transposed(adj: Seq<Seq<Edge>>, v: int, f: Edge)
    requires
        well_formed_adj(adj),
        0 <= v < adj.len(),
    ensures
        occ(transposed(adj)[v], f) == if f.from.0 == v && (f.to.0 as int) < adj.len() {
            occ(adj[f.to.0 as int], reversed(f))
        } else {
            0
        },
{
    let pred = |x: Edge| x.to.0 == v;
    let filt = all_edges(adj).filter(pred);
    assert(transposed(adj)[v] == filt.map_values(|x: Edge| reversed(x)));
    lemma_occ_reversed(filt, f);
    lemma_occ_filter(all_edges(adj), pred, reversed(f));
    lemma_occ_all_edges(adj, reversed(f));
}

/// Law: transposing twice gives back each adjacency list up to order: every
/// edge occurs in list `u` of the twice-transposed graph exactly as often as
/// in list `u` of the graph, so the two lists are permutations of each other.
pub proof fn lemma_double_transpose_permutes(adj: Seq<Seq<Edge>>, u: int)
    requires
        well_formed_adj(adj),
        0 <= u < adj.len(),
    ensures
        transposed(transposed(adj)).len() == adj.len(),
        transposed(transposed(adj))[u].to_multiset() == adj[u].to_multiset(),
{
    let t = transposed(adj);
    lemma_transposed_well_formed(adj);
    assert forall|e: Edge| transposed(t)[u].to_multiset().count(e) == adj[u].to_multiset().count(e) by {
        lemma_occ_multiset(transposed(t)[u], e);
        lemma_occ_multiset(adj[u], e);
        lemma_occ_transposed(t, u, e);
        let f = reversed(e);
        assert(reversed(f) == e);
        if e.from.0 == u && (e.to.0 as int) < adj.len() {
            lemma_occ_transposed(adj, e.to.0 as int, f);
        }
        if !(e.from.0 == u && (e.to.0 as int) < adj.len()) {
            assert forall|j: int| 0 <= j < adj[u].len() implies adj[u][j] != e by {
                assert(adj[u][j].from.0 == u && (adj[u][j].to.0 as int) < adj.len());
            }
            lemma_occ_absent(adj[u], e);
        }
    }
    assert(transposed(t)[u].to_multiset() =~= adj[u].to_multiset());
}

} // verus!
