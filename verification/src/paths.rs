//! Walks through a graph's adjacency lists: reachability and walk lengths,
//! the vocabulary that the traversal and component contracts are stated in.

use vstd::prelude::*;
use crate::graph::{Edge, NodeId, well_formed_adj};

verus! {

/// `e` is one of the graph's edges.
pub open spec fn has_edge(adj: Seq<Seq<Edge>>, e: Edge) -> bool {
    &&& 0 <= e.from.0 < adj.len()
    &&& adj[e.from.0 as int].contains(e)
}

/// `p` is a walk of graph edges from node `s` to node `v`; the empty walk
/// goes from a node to itself.
pub open spec fn is_walk(adj: Seq<Seq<Edge>>, s: nat, v: nat, p: Seq<Edge>) -> bool {
    &&& forall|i: int| 0 <= i < p.len() ==> has_edge(adj, #[trigger] p[i])
    &&& forall|i: int, j: int|
        #![trigger p[i], p[j]]
        0 <= i && j == i + 1 && j < p.len() ==> p[i].to == p[j].from
    &&& if p.len() == 0 {
        s == v
    } else {
        p[0].from.0 == s && p.last().to.0 == v
    }
}

/// Some walk from `s` to `v` uses at most `k` edges.
pub open spec fn walk_within(adj: Seq<Seq<Edge>>, s: nat, v: nat, k: nat) -> bool {
    exists|p: Seq<Edge>| #[trigger] is_walk(adj, s, v, p) && p.len() <= k
}

/// `v` can be reached from `s`.
pub open spec fn reachable(adj: Seq<Seq<Edge>>, s: nat, v: nat) -> bool {
    exists|p: Seq<Edge>| #[trigger] is_walk(adj, s, v, p)
}

/// The fewest edges on a walk from `s` to `v` is `d`.
pub open spec fn shortest(adj: Seq<Seq<Edge>>, s: nat, v: nat, d: nat) -> bool {
    &&& walk_within(adj, s, v, d)
    &&& d > 0 ==> !walk_within(adj, s, v, (d - 1) as nat)
}

/// Node `a` is no farther from `s` than node `b`: every edge budget that
/// reaches `b` reaches `a`.
pub open spec fn no_farther(adj: Seq<Seq<Edge>>, s: nat, a: nat, b: nat) -> bool {
    forall|k: nat| #[trigger] walk_within(adj, s, b, k) ==> walk_within(adj, s, a, k)
}

/// The empty walk.
pub proof fn lemma_walk_empty(adj: Seq<Seq<Edge>>, s: nat)
    ensures
        is_walk(adj, s, s, Seq::empty()),
        walk_within(adj, s, s, 0),
        reachable(adj, s, s),
{
    assert(is_walk(adj, s, s, Seq::empty()));
}

/// A walk followed by an edge leaving its end is a walk.
pub proof fn lemma_walk_push(adj: Seq<Seq<Edge>>, s: nat, v: nat, p: Seq<Edge>, e: Edge)
    requires
        is_walk(adj, s, v, p),
        has_edge(adj, e),
        e.from.0 == v,
    ensures
        is_walk(adj, s, e.to.0 as nat, p.push(e)),
{
    let q = p.push(e);
    assert forall|i: int| 0 <= i < q.len() implies has_edge(adj, #[trigger] q[i]) by {
        if i < p.len() {
            assert(q[i] == p[i]);
        }
    }
    assert forall|i: int, j: int|
        #![trigger q[i], q[j]]
        0 <= i && j == i + 1 && j < q.len() implies q[i].to == q[j].from by {
        if j < p.len() {
            assert(q[i] == p[i] && q[j] == p[j]);
        } else {
            assert(q[i] == p.last());
        }
    }
}

/// Extending a walk within `k` edges by one edge gives a walk within `k + 1`.
pub proof fn lemma_within_push(adj: Seq<Seq<Edge>>, s: nat, v: nat, k: nat, e: Edge)
    requires
        walk_within(adj, s, v, k),
        has_edge(adj, e),
        e.from.0 == v,
    ensures
        walk_within(adj, s, e.to.0 as nat, k + 1),
{
    let p = choose|p: Seq<Edge>| #[trigger] is_walk(adj, s, v, p) && p.len() <= k;
    lemma_walk_push(adj, s, v, p, e);
    assert(is_walk(adj, s, e.to.0 as nat, p.push(e)));
}

/// A nonempty walk is a shorter walk followed by its last edge.
pub proof fn lemma_walk_drop_last(adj: Seq<Seq<Edge>>, s: nat, v: nat, p: Seq<Edge>)
    requires
        is_walk(adj, s, v, p),
        p.len() > 0,
    ensures
        is_walk(adj, s, p.last().from.0 as nat, p.drop_last()),
        has_edge(adj, p.last()),
        p.last().to.0 == v,
{
    let q = p.drop_last();
    assert(has_edge(adj, p[p.len() - 1]));
    assert forall|i: int| 0 <= i < q.len() implies has_edge(adj, #[trigger] q[i]) by {
        assert(q[i] == p[i]);
    }
    assert forall|i: int, j: int|
        #![trigger q[i], q[j]]
        0 <= i && j == i + 1 && j < q.len() implies q[i].to == q[j].from by {
        assert(q[i] == p[i] && q[j] == p[j]);
    }
    if q.len() > 0 {
        assert(q[0] == p[0]);
        assert(p[q.len() - 1].to == p[q.len() as int].from);
    }
}

/// A node within `k > 0` edges other than `s` has a predecessor within
/// `k - 1` edges.
pub proof fn lemma_within_pred(adj: Seq<Seq<Edge>>, s: nat, w: nat, k: nat) -> (e: Edge)
    requires
        walk_within(adj, s, w, k),
        w != s,
    ensures
        k > 0,
        has_edge(adj, e),
        e.to.0 == w,
        walk_within(adj, s, e.from.0 as nat, (k - 1) as nat),
{
    let p = choose|p: Seq<Edge>| #[trigger] is_walk(adj, s, w, p) && p.len() <= k;
    lemma_walk_drop_last(adj, s, w, p);
    let e = p.last();
    assert(is_walk(adj, s, e.from.0 as nat, p.drop_last()));
    e
}

/// More edges allowed, more nodes within reach.
pub proof fn lemma_within_mono(adj: Seq<Seq<Edge>>, s: nat, v: nat, k1: nat, k2: nat)
    requires
        walk_within(adj, s, v, k1),
        k1 <= k2,
    ensures
        walk_within(adj, s, v, k2),
{
    let p = choose|p: Seq<Edge>| #[trigger] is_walk(adj, s, v, p) && p.len() <= k1;
    assert(is_walk(adj, s, v, p) && p.len() <= k2);
}

/// A shortest distance is a lower bound on every edge budget that works.
pub proof fn lemma_shortest_le(adj: Seq<Seq<Edge>>, s: nat, v: nat, d: nat, k: nat)
    requires
        shortest(adj, s, v, d),
        walk_within(adj, s, v, k),
    ensures
        d <= k,
{
    if k < d {
        lemma_within_mono(adj, s, v, k, (d - 1) as nat);
    }
}

/// Nodes at smaller shortest distance are no farther.
pub proof fn lemma_no_farther(adj: Seq<Seq<Edge>>, s: nat, a: nat, da: nat, b: nat, db: nat)
    requires
        shortest(adj, s, a, da),
        shortest(adj, s, b, db),
        da <= db,
    ensures
        no_farther(adj, s, a, b),
{
    assert forall|k: nat| #[trigger] walk_within(adj, s, b, k) implies walk_within(
        adj,
        s,
        a,
        k,
    ) by {
        lemma_shortest_le(adj, s, b, db, k);
        lemma_within_mono(adj, s, a, da, k);
    }
}

/// A set of nodes that holds `s` and is closed under the graph's edges holds
/// every node that a walk from `s` reaches.
pub proof fn lemma_closed_reach(
    adj: Seq<Seq<Edge>>,
    s: nat,
    closed: spec_fn(nat) -> bool,
    v: nat,
    p: Seq<Edge>,
)
    requires
        closed(s),
        forall|e: Edge| has_edge(adj, e) && #[trigger] closed(e.from.0 as nat) ==> closed(
            e.to.0 as nat,
        ),
        is_walk(adj, s, v, p),
    ensures
        closed(v),
    decreases p.len(),
{
    if p.len() > 0 {
        lemma_walk_drop_last(adj, s, v, p);
        lemma_closed_reach(adj, s, closed, p.last().from.0 as nat, p.drop_last());
    }
}

/// The number of edges on a shortest walk from `s` to `v`, or `u32::MAX`
/// when no walk reaches `v`.
pub open spec fn level(adj: Seq<Seq<Edge>>, s: nat, v: nat) -> nat {
    if reachable(adj, s, v) {
        choose|d: nat| shortest(adj, s, v, d)
    } else {
        u32::MAX as nat
    }
}

/// A node has at most one shortest distance.
pub proof fn lemma_shortest_unique(adj: Seq<Seq<Edge>>, s: nat, v: nat, d1: nat, d2: nat)
    requires
        shortest(adj, s, v, d1),
        shortest(adj, s, v, d2),
    ensures
        d1 == d2,
{
    lemma_shortest_le(adj, s, v, d1, d2);
    lemma_shortest_le(adj, s, v, d2, d1);
}

/// The level of a node with a known shortest distance is that distance.
pub proof fn lemma_level_is_shortest(adj: Seq<Seq<Edge>>, s: nat, v: nat, d: nat)
    requires
        shortest(adj, s, v, d),
    ensures
        level(adj, s, v) == d,
        reachable(adj, s, v),
{
    let p = choose|p: Seq<Edge>| #[trigger] is_walk(adj, s, v, p) && p.len() <= d;
    assert(is_walk(adj, s, v, p));
    let c = choose|c: nat| shortest(adj, s, v, c);
    lemma_shortest_unique(adj, s, v, c, d);
}

/// Every node within `k` edges has a shortest distance of at most `k`.
pub proof fn lemma_shortest_exists(adj: Seq<Seq<Edge>>, s: nat, v: nat, k: nat) -> (d: nat)
    requires
        walk_within(adj, s, v, k),
    ensures
        d <= k,
        shortest(adj, s, v, d),
    decreases k,
{
    if k > 0 && walk_within(adj, s, v, (k - 1) as nat) {
        lemma_shortest_exists(adj, s, v, (k - 1) as nat)
    } else {
        k
    }
}

/// A reachable node's level is its shortest distance.
pub proof fn lemma_level_reachable(adj: Seq<Seq<Edge>>, s: nat, v: nat)
    requires
        reachable(adj, s, v),
    ensures
        shortest(adj, s, v, level(adj, s, v)),
{
    let p = choose|p: Seq<Edge>| #[trigger] is_walk(adj, s, v, p);
    assert(walk_within(adj, s, v, p.len()));
    let d = lemma_shortest_exists(adj, s, v, p.len());
    lemma_level_is_shortest(adj, s, v, d);
}

/// `a + b`, capped at `u32::MAX`.
pub open spec fn sat_add(a: nat, b: nat) -> nat {
    if a + b > u32::MAX {
        u32::MAX as nat
    } else {
        a + b
    }
}

/// The weight of a walk, adding edge weights in order and capping every
/// partial sum at `u32::MAX`.
pub open spec fn walk_weight(p: Seq<Edge>) -> nat
    decreases p.len(),
{
    if p.len() == 0 {
        0
    } else {
        sat_add(walk_weight(p.drop_last()), p.last().weight as nat)
    }
}

/// Some walk from `s` to `v` has weight `c`.
pub open spec fn walk_cost(adj: Seq<Seq<Edge>>, s: nat, v: nat, c: nat) -> bool {
    exists|p: Seq<Edge>| #[trigger] is_walk(adj, s, v, p) && walk_weight(p) == c
}

/// No walk from `s` to `v` weighs less than `c`.
pub open spec fn no_cheaper_walk(adj: Seq<Seq<Edge>>, s: nat, v: nat, c: nat) -> bool {
    forall|p: Seq<Edge>| #[trigger] is_walk(adj, s, v, p) ==> c <= walk_weight(p)
}

/// Some edge joins `a` and `b`, in either direction.
pub open spec fn linked(adj: Seq<Seq<Edge>>, a: nat, b: nat) -> bool {
    exists|e: Edge|
        #[trigger] has_edge(adj, e) && ((e.from.0 == a && e.to.0 == b) || (e.from.0 == b && e.to.0
            == a))
}

/// `p` is a nonempty sequence of nodes in which neighbours are linked.
pub open spec fn is_chain(adj: Seq<Seq<Edge>>, p: Seq<nat>) -> bool {
    &&& p.len() > 0
    &&& forall|i: int, j: int|
        #![trigger p[i], p[j]]
        0 <= i && j == i + 1 && j < p.len() ==> linked(adj, p[i], p[j])
}

/// `a` and `b` are joined by edges followed in either direction.
pub open spec fn weakly_connected(adj: Seq<Seq<Edge>>, a: nat, b: nat) -> bool {
    exists|p: Seq<nat>| #[trigger] is_chain(adj, p) && p[0] == a && p.last() == b
}

/// Every node is weakly connected to itself.
pub proof fn lemma_wc_refl(adj: Seq<Seq<Edge>>, a: nat)
    ensures
        weakly_connected(adj, a, a),
{
    let p = seq![a];
    assert(is_chain(adj, p));
}

/// Linked nodes are weakly connected.
pub proof fn lemma_wc_linked(adj: Seq<Seq<Edge>>, a: nat, b: nat)
    requires
        linked(adj, a, b),
    ensures
        weakly_connected(adj, a, b),
{
    let p = seq![a, b];
    assert forall|i: int, j: int|
        #![trigger p[i], p[j]]
        0 <= i && j == i + 1 && j < p.len() implies linked(adj, p[i], p[j]) by {
        assert(i == 0 && j == 1);
    }
    assert(is_chain(adj, p));
}

/// Weak connectivity is symmetric.
pub proof fn lemma_wc_symm(adj: Seq<Seq<Edge>>, a: nat, b: nat)
    requires
        weakly_connected(adj, a, b),
    ensures
        weakly_connected(adj, b, a),
{
    let p = choose|p: Seq<nat>| #[trigger] is_chain(adj, p) && p[0] == a && p.last() == b;
    let q = p.reverse();
    assert forall|i: int, j: int|
        #![trigger q[i], q[j]]
        0 <= i && j == i + 1 && j < q.len() implies linked(adj, q[i], q[j]) by {
        let i2 = p.len() - 1 - j;
        let j2 = p.len() - 1 - i;
        assert(q[i] == p[j2] && q[j] == p[i2]);
        assert(linked(adj, p[i2], p[j2]));
        let e = choose|e: Edge|
            #[trigger] has_edge(adj, e) && ((e.from.0 == p[i2] && e.to.0 == p[j2]) || (e.from.0
                == p[j2] && e.to.0 == p[i2]));
        assert(has_edge(adj, e));
    }
    assert(is_chain(adj, q));
    assert(q[0] == b && q.last() == a);
}

/// Weak connectivity is transitive.
pub proof fn lemma_wc_trans(adj: Seq<Seq<Edge>>, a: nat, b: nat, c: nat)
    requires
        weakly_connected(adj, a, b),
        weakly_connected(adj, b, c),
    ensures
        weakly_connected(adj, a, c),
{
    let p = choose|p: Seq<nat>| #[trigger] is_chain(adj, p) && p[0] == a && p.last() == b;
    let q = choose|q: Seq<nat>| #[trigger] is_chain(adj, q) && q[0] == b && q.last() == c;
    let r = p + q.drop_first();
    assert forall|i: int, j: int|
        #![trigger r[i], r[j]]
        0 <= i && j == i + 1 && j < r.len() implies linked(adj, r[i], r[j]) by {
        if j < p.len() {
            assert(r[i] == p[i] && r[j] == p[j]);
        } else if i == p.len() - 1 {
            assert(r[i] == q[0] && r[j] == q[1]);
        } else {
            assert(r[i] == q[i - p.len() + 1] && r[j] == q[j - p.len() + 1]);
        }
    }
    assert(is_chain(adj, r));
    if q.len() == 1 {
        assert(r =~= p);
    } else {
        assert(r.last() == q.last());
    }
}

/// A set that holds `a` and, with every node, the nodes linked to it holds
/// every node weakly connected to `a`.
pub proof fn lemma_wc_closed(adj: Seq<Seq<Edge>>, closed: spec_fn(nat) -> bool, a: nat, b: nat)
    requires
        closed(a),
        forall|x: nat, y: nat| #[trigger] closed(x) && linked(adj, x, y) ==> #[trigger] closed(y),
        weakly_connected(adj, a, b),
    ensures
        closed(b),
{
    let p = choose|p: Seq<nat>| #[trigger] is_chain(adj, p) && p[0] == a && p.last() == b;
    lemma_chain_closed(adj, closed, p, p.len() - 1);
}

proof fn lemma_chain_closed(adj: Seq<Seq<Edge>>, closed: spec_fn(nat) -> bool, p: Seq<nat>, k: int)
    requires
        is_chain(adj, p),
        0 <= k < p.len(),
        closed(p[0]),
        forall|x: nat, y: nat| #[trigger] closed(x) && linked(adj, x, y) ==> #[trigger] closed(y),
    ensures
        closed(p[k]),
    decreases k,
{
    if k > 0 {
        lemma_chain_closed(adj, closed, p, k - 1);
        assert(linked(adj, p[k - 1], p[k]));
    }
}

/// A node reached along edges is weakly connected to the start.
pub proof fn lemma_walk_wc(adj: Seq<Seq<Edge>>, a: nat, b: nat, p: Seq<Edge>)
    requires
        is_walk(adj, a, b, p),
    ensures
        weakly_connected(adj, a, b),
    decreases p.len(),
{
    if p.len() == 0 {
        lemma_wc_refl(adj, a);
    } else {
        lemma_walk_drop_last(adj, a, b, p);
        let e = p.last();
        lemma_walk_wc(adj, a, e.from.0 as nat, p.drop_last());
        assert(linked(adj, e.from.0 as nat, b));
        lemma_wc_linked(adj, e.from.0 as nat, b);
        lemma_wc_trans(adj, a, e.from.0 as nat, b);
    }
}

/// An edge into the start of a walk, followed by the walk, is a walk.
pub proof fn lemma_walk_prepend(adj: Seq<Seq<Edge>>, s: nat, v: nat, p: Seq<Edge>, e: Edge)
    requires
        is_walk(adj, s, v, p),
        has_edge(adj, e),
        e.to.0 == s,
    ensures
        is_walk(adj, e.from.0 as nat, v, seq![e] + p),
{
    let q = seq![e] + p;
    assert forall|i: int| 0 <= i < q.len() implies has_edge(adj, #[trigger] q[i]) by {
        if i > 0 {
            assert(q[i] == p[i - 1]);
        }
    }
    assert forall|i: int, j: int|
        #![trigger q[i], q[j]]
        0 <= i && j == i + 1 && j < q.len() implies q[i].to == q[j].from by {
        if i > 0 {
            assert(q[i] == p[i - 1] && q[j] == p[j - 1]);
        } else {
            assert(q[j] == p[0]);
        }
    }
    if p.len() > 0 {
        assert(q.last() == p.last());
    }
}

/// A node with an edge into a node that reaches `s` reaches `s`.
pub proof fn lemma_reach_prepend(adj: Seq<Seq<Edge>>, x: nat, s: nat, e: Edge)
    requires
        reachable(adj, x, s),
        has_edge(adj, e),
        e.to.0 == x,
    ensures
        reachable(adj, e.from.0 as nat, s),
{
    let p = choose|p: Seq<Edge>| #[trigger] is_walk(adj, x, s, p);
    lemma_walk_prepend(adj, x, s, p, e);
    assert(is_walk(adj, e.from.0 as nat, s, seq![e] + p));
}

/// Two walks, end to end, make a walk.
pub proof fn lemma_walk_concat(adj: Seq<Seq<Edge>>, a: nat, b: nat, c: nat, p: Seq<Edge>, q: Seq<Edge>)
    requires
        is_walk(adj, a, b, p),
        is_walk(adj, b, c, q),
    ensures
        is_walk(adj, a, c, p + q),
    decreases q.len(),
{
    if q.len() == 0 {
        assert(p + q =~= p);
    } else {
        lemma_walk_drop_last(adj, b, c, q);
        lemma_walk_concat(adj, a, b, q.last().from.0 as nat, p, q.drop_last());
        lemma_walk_push(adj, a, q.last().from.0 as nat, p + q.drop_last(), q.last());
        assert((p + q.drop_last()).push(q.last()) =~= p + q);
    }
}

/// Reachability is transitive.
pub proof fn lemma_reach_trans(adj: Seq<Seq<Edge>>, a: nat, b: nat, c: nat)
    requires
        reachable(adj, a, b),
        reachable(adj, b, c),
    ensures
        reachable(adj, a, c),
{
    let p = choose|p: Seq<Edge>| #[trigger] is_walk(adj, a, b, p);
    let q = choose|q: Seq<Edge>| #[trigger] is_walk(adj, b, c, q);
    lemma_walk_concat(adj, a, b, c, p, q);
    assert(is_walk(adj, a, c, p + q));
}

/// A node that reaches the start of an edge reaches its end.
pub proof fn lemma_reach_edge(adj: Seq<Seq<Edge>>, a: nat, e: Edge)
    requires
        reachable(adj, a, e.from.0 as nat),
        has_edge(adj, e),
    ensures
        reachable(adj, a, e.to.0 as nat),
{
    let p = choose|p: Seq<Edge>| #[trigger] is_walk(adj, a, e.from.0 as nat, p);
    lemma_walk_push(adj, a, e.from.0 as nat, p, e);
    assert(is_walk(adj, a, e.to.0 as nat, p.push(e)));
}

/// `a` and `b` reach each other.
pub open spec fn mutual(adj: Seq<Seq<Edge>>, a: nat, b: nat) -> bool {
    reachable(adj, a, b) && reachable(adj, b, a)
}

/// Mutual reachability is an equivalence on nodes.
pub proof fn lemma_mutual_trans(adj: Seq<Seq<Edge>>, a: nat, b: nat, c: nat)
    requires
        mutual(adj, a, b),
        mutual(adj, b, c),
    ensures
        mutual(adj, a, c),
{
    lemma_reach_trans(adj, a, b, c);
    lemma_reach_trans(adj, c, b, a);
}

/// A walk from inside a set of nodes to outside it takes an edge that
/// leaves the set, and the start reaches that edge's end.
pub proof fn lemma_leave(adj: Seq<Seq<Edge>>, x: nat, v: nat, inside: spec_fn(nat) -> bool, p: Seq<Edge>) -> (e: Edge)
    requires
        is_walk(adj, x, v, p),
        inside(x),
        !inside(v),
    ensures
        has_edge(adj, e),
        inside(e.from.0 as nat),
        !inside(e.to.0 as nat),
        reachable(adj, x, e.to.0 as nat),
    decreases p.len(),
{
    if p.len() == 0 {
        assert(false);
        p[0]
    } else {
        lemma_walk_drop_last(adj, x, v, p);
        let f = p.last();
        assert(is_walk(adj, x, v, p));
        if inside(f.from.0 as nat) {
            f
        } else {
            lemma_leave(adj, x, f.from.0 as nat, inside, p.drop_last())
        }
    }
}

/// A nonempty walk is its first edge followed by a shorter walk.
pub proof fn lemma_walk_drop_first(adj: Seq<Seq<Edge>>, s: nat, v: nat, p: Seq<Edge>)
    requires
        is_walk(adj, s, v, p),
        p.len() > 0,
    ensures
        is_walk(adj, p[0].to.0 as nat, v, p.drop_first()),
        has_edge(adj, p[0]),
        p[0].from.0 == s,
{
    let q = p.drop_first();
    assert(has_edge(adj, p[0]));
    assert forall|i: int| 0 <= i < q.len() implies has_edge(adj, #[trigger] q[i]) by {
        assert(q[i] == p[i + 1]);
    }
    assert forall|i: int, j: int|
        #![trigger q[i], q[j]]
        0 <= i && j == i + 1 && j < q.len() implies q[i].to == q[j].from by {
        assert(q[i] == p[i + 1] && q[j] == p[j + 1]);
    }
    if q.len() > 0 {
        assert(q[0] == p[1]);
        assert(p[0].to == p[1].from);
        assert(q.last() == p.last());
    }
}

/// A set that holds `f`, and holds the start of every edge into it whose
/// start `f` reaches, holds every node that `f` reaches and that reaches `f`.
pub proof fn lemma_back_closed(adj: Seq<Seq<Edge>>, f: nat, v: nat, inset: spec_fn(nat) -> bool, p: Seq<Edge>)
    requires
        inset(f),
        forall|e: Edge|
            has_edge(adj, e) && #[trigger] inset(e.to.0 as nat) && reachable(adj, f, e.from.0 as nat)
                ==> inset(e.from.0 as nat),
        is_walk(adj, v, f, p),
        reachable(adj, f, v),
    ensures
        inset(v),
    decreases p.len(),
{
    if p.len() > 0 {
        lemma_walk_drop_first(adj, v, f, p);
        let e = p[0];
        lemma_reach_edge(adj, f, e);
        lemma_back_closed(adj, f, e.to.0 as nat, inset, p.drop_first());
    }
}

/// Number of `false` entries.
pub open spec fn count_false(s: Seq<bool>) -> nat
    decreases s.len(),
{
    if s.len() == 0 {
        0
    } else {
        count_false(s.drop_last()) + if s.last() {
            0nat
        } else {
            1nat
        }
    }
}

/// Setting a `false` entry to `true` removes one `false`.
pub proof fn lemma_count_false_set(s: Seq<bool>, i: int)
    requires
        0 <= i < s.len(),
        !s[i],
    ensures
        count_false(s.update(i, true)) + 1 == count_false(s),
    decreases s.len(),
{
    let t = s.update(i, true);
    if i == s.len() - 1 {
        assert(t.drop_last() =~= s.drop_last());
    } else {
        lemma_count_false_set(s.drop_last(), i);
        assert(t.drop_last() =~= s.drop_last().update(i, true));
    }
}

/// A sequence of `false` only counts its length.
pub proof fn lemma_count_false_all(n: nat)
    ensures
        count_false(Seq::new(n, |i: int| false)) == n,
    decreases n,
{
    if n > 0 {
        assert(Seq::new(n, |i: int| false).drop_last() =~= Seq::new((n - 1) as nat, |i: int| false));
        lemma_count_false_all((n - 1) as nat);
    }
}

/// A vector of `n` copies of `x`.
pub fn filled<T: Copy>(x: T, n: usize) -> (v: Vec<T>)
    ensures
        v@ == Seq::new(n as nat, |i: int| x),
{
    let mut v: Vec<T> = Vec::new();
    let mut i: usize = 0;
    while i < n
        invariant
            i <= n,
            v@ == Seq::new(i as nat, |k: int| x),
        decreases n - i,
    {
        v.push(x);
        i = i + 1;
        assert(v@ =~= Seq::new(i as nat, |k: int| x));
    }
    v
}

/// The node with index `i`.
pub open spec fn node(i: nat) -> NodeId {
    NodeId(i as u32)
}

} // verus!
