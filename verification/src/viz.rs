//! Graphviz DOT export.

use vstd::prelude::*;
use crate::graph::{Edge, Graph, NodeId, all_edges, lemma_all_edges_contains, well_formed_adj};
use crate::text::{dec, push_decimal};

verus! {

/// The DOT line declaring node `i`.
pub open spec fn node_line(i: nat) -> Seq<char> {
    "  "@ + dec(i) + " [label=\""@ + dec(i) + "\"];\n"@
}

/// The DOT line of edge `e`, labelled with its weight.
pub open spec fn edge_line(e: Edge) -> Seq<char> {
    "  "@ + dec(e.from.0 as nat) + " -> "@ + dec(e.to.0 as nat) + " [label=\""@ + dec(
        e.weight as nat,
    ) + "\"];\n"@
}

/// The lines of nodes `0..n`.
pub open spec fn node_lines(n: nat) -> Seq<char>
    decreases n,
{
    if n == 0 {
        Seq::empty()
    } else {
        node_lines((n - 1) as nat) + node_line((n - 1) as nat)
    }
}

/// The lines of the edges, in order.
pub open spec fn edge_lines(es: Seq<Edge>) -> Seq<char>
    decreases es.len(),
{
    if es.len() == 0 {
        Seq::empty()
    } else {
        edge_lines(es.drop_last()) + edge_line(es.last())
    }
}

/// The DOT document of a graph: the header, one line per node in id order,
/// one line per edge in storage order, and the closing brace with a single
/// trailing newline.
pub open spec fn dot_text(adj: Seq<Seq<Edge>>) -> Seq<char> {
    "digraph G {\n"@ + node_lines(adj.len()) + edge_lines(all_edges(adj)) + "}\n"@
}

/// Law: the DOT text ends with the closing brace and a single newline.
pub proof fn lemma_dot_ends_with_newline(adj: Seq<Seq<Edge>>)
    ensures
        dot_text(adj).len() >= 2,
        dot_text(adj)[dot_text(adj).len() - 1] == '\n',
        dot_text(adj)[dot_text(adj).len() - 2] == '}',
{
    reveal_strlit("}\n");
    let head = "digraph G {\n"@ + node_lines(adj.len()) + edge_lines(all_edges(adj));
    assert(dot_text(adj) == head + "}\n"@);
    assert((head + "}\n"@)[head.len() + 1int] == "}\n"@[1]);
    assert((head + "}\n"@)[head.len() as int] == "}\n"@[0]);
}

/// `piece` occurs in `t` as a contiguous run of characters.
pub open spec fn has_piece(t: Seq<char>, piece: Seq<char>) -> bool {
    exists|k: int| 0 <= k && k + piece.len() <= t.len() && #[trigger] t.subrange(k, k + piece.len()) == piece
}

/// A piece of `t` is a piece of any text around `t`.
proof fn lemma_piece_extend(t: Seq<char>, piece: Seq<char>, p: Seq<char>, q: Seq<char>)
    requires
        has_piece(t, piece),
    ensures
        has_piece(p + t + q, piece),
{
    let k = choose|k: int| 0 <= k && k + piece.len() <= t.len() && #[trigger] t.subrange(k, k + piece.len()) == piece;
    let u = p + t + q;
    let k2 = p.len() + k;
    assert(u.subrange(k2, k2 + piece.len()) =~= t.subrange(k, k + piece.len()));
}

/// Every edge's line is a piece of the edge lines.
proof fn lemma_edge_lines_piece(es: Seq<Edge>, m: int)
    requires
        0 <= m < es.len(),
    ensures
        has_piece(edge_lines(es), edge_line(es[m])),
    decreases es.len(),
{
    let pre = edge_lines(es.drop_last());
    let line = edge_line(es.last());
    assert(edge_lines(es) == pre + line);
    if m == es.len() - 1 {
        let t = pre + line;
        assert(t.subrange(pre.len() as int, (pre.len() + line.len()) as int) =~= line);
    } else {
        lemma_edge_lines_piece(es.drop_last(), m);
        assert(es.drop_last()[m] == es[m]);
        lemma_piece_extend(pre, edge_line(es[m]), Seq::empty(), line);
        assert(Seq::<char>::empty() + pre + line =~= pre + line);
    }
}

/// Every node's line is a piece of the node lines.
proof fn lemma_node_lines_piece(n: nat, v: nat)
    requires
        v < n,
    ensures
        has_piece(node_lines(n), node_line(v)),
    decreases n,
{
    let pre = node_lines((n - 1) as nat);
    let line = node_line((n - 1) as nat);
    if v == n - 1 {
        let t = pre + line;
        assert(t.subrange(pre.len() as int, (pre.len() + line.len()) as int) =~= line);
    } else {
        lemma_node_lines_piece((n - 1) as nat, v);
        lemma_piece_extend(pre, node_line(v), Seq::empty(), line);
        assert(Seq::<char>::empty() + pre + line =~= pre + line);
    }
}

/// Law: the DOT text of a graph opens with `digraph G {`, declares every
/// node `v` on a line `  v [label="v"];`, and writes every stored edge,
/// whatever its weight, on a line `  from -> to [label="weight"];`.
pub proof fn lemma_dot_lists_nodes_and_weighted_edges(adj: Seq<Seq<Edge>>)
    ensures
        dot_text(adj).subrange(0, 12) == "digraph G {\n"@,
        forall|v: nat|
            v < adj.len() ==> has_piece(
                dot_text(adj),
                "  "@ + dec(v) + " [label=\""@ + #[trigger] dec(v) + "\"];\n"@,
            ),
        forall|i: int, j: int|
            0 <= i < adj.len() && 0 <= j < adj[i].len() ==> has_piece(
                dot_text(adj),
                "  "@ + dec(#[trigger] adj[i][j].from.0 as nat) + " -> "@ + dec(adj[i][j].to.0 as nat)
                    + " [label=\""@ + dec(adj[i][j].weight as nat) + "\"];\n"@,
            ),
{
    reveal_strlit("digraph G {\n");
    let head = "digraph G {\n"@;
    let nl = node_lines(adj.len());
    let el = edge_lines(all_edges(adj));
    let tail = "}\n"@;
    assert(dot_text(adj) == head + nl + el + tail);
    assert(dot_text(adj).subrange(0, 12) =~= head);
    assert forall|v: nat| v < adj.len() implies has_piece(
        dot_text(adj),
        "  "@ + dec(v) + " [label=\""@ + #[trigger] dec(v) + "\"];\n"@,
    ) by {
        lemma_node_lines_piece(adj.len(), v);
        lemma_piece_extend(nl, node_line(v), head, el + tail);
        assert(head + nl + (el + tail) =~= dot_text(adj));
    }
    assert forall|i: int, j: int| 0 <= i < adj.len() && 0 <= j < adj[i].len() implies has_piece(
        dot_text(adj),
        "  "@ + dec(#[trigger] adj[i][j].from.0 as nat) + " -> "@ + dec(adj[i][j].to.0 as nat)
            + " [label=\""@ + dec(adj[i][j].weight as nat) + "\"];\n"@,
    ) by {
        let e = adj[i][j];
        lemma_all_edges_contains(adj, e);
        let m = choose|m: int| 0 <= m < all_edges(adj).len() && all_edges(adj)[m] == e;
        lemma_edge_lines_piece(all_edges(adj), m);
        lemma_piece_extend(el, edge_line(e), head + nl, tail);
    }
}

/// Number of newline characters in `t`.
pub open spec fn newlines(t: Seq<char>) -> nat
    decreases t.len(),
{
    if t.len() == 0 {
        0
    } else {
        newlines(t.drop_last()) + if t.last() == '\n' {
            1nat
        } else {
            0nat
        }
    }
}

/// Newlines add up over a concatenation.
proof fn lemma_newlines_add(a: Seq<char>, b: Seq<char>)
    ensures
        newlines(a + b) == newlines(a) + newlines(b),
    decreases b.len(),
{
    if b.len() == 0 {
        assert(a + b =~= a);
    } else {
        lemma_newlines_add(a, b.drop_last());
        assert((a + b).drop_last() =~= a + b.drop_last());
    }
}

/// Text without a newline character has no newlines.
proof fn lemma_newlines_none(t: Seq<char>)
    requires
        forall|i: int| 0 <= i < t.len() ==> t[i] != '\n',
    ensures
        newlines(t) == 0,
    decreases t.len(),
{
    if t.len() > 0 {
        lemma_newlines_none(t.drop_last());
    }
}

/// A decimal rendering holds no newline.
proof fn lemma_dec_no_newline(x: nat)
    ensures
        newlines(dec(x)) == 0,
        forall|i: int| 0 <= i < dec(x).len() ==> dec(x)[i] != '\n',
    decreases x,
{
    if x >= 10 {
        lemma_dec_no_newline(x / 10);
        let t = dec(x / 10) + seq![crate::text::digit(x % 10)];
        assert forall|i: int| 0 <= i < t.len() implies t[i] != '\n' by {
            if i < dec(x / 10).len() {
                assert(t[i] == dec(x / 10)[i]);
            }
        }
    }
    lemma_newlines_none(dec(x));
}

/// A literal with exactly one newline, at its end, counts one.
proof fn lemma_newlines_one_at_end(t: Seq<char>)
    requires
        t.len() > 0,
        t.last() == '\n',
        forall|i: int| 0 <= i < t.len() - 1 ==> t[i] != '\n',
    ensures
        newlines(t) == 1,
{
    lemma_newlines_none(t.drop_last());
}

/// Each node line is one line.
proof fn lemma_node_line_newlines(v: nat)
    ensures
        newlines(node_line(v)) == 1,
{
    reveal_strlit("  ");
    reveal_strlit(" [label=\"");
    reveal_strlit("\"];\n");
    lemma_dec_no_newline(v);
    lemma_newlines_none("  "@);
    lemma_newlines_none(" [label=\""@);
    lemma_newlines_one_at_end("\"];\n"@);
    lemma_newlines_add("  "@, dec(v));
    lemma_newlines_add("  "@ + dec(v), " [label=\""@);
    lemma_newlines_add("  "@ + dec(v) + " [label=\""@, dec(v));
    lemma_newlines_add("  "@ + dec(v) + " [label=\""@ + dec(v), "\"];\n"@);
}

/// Each edge line is one line.
proof fn lemma_edge_line_newlines(e: Edge)
    ensures
        newlines(edge_line(e)) == 1,
{
    reveal_strlit("  ");
    reveal_strlit(" -> ");
    reveal_strlit(" [label=\"");
    reveal_strlit("\"];\n");
    let a = dec(e.from.0 as nat);
    let b = dec(e.to.0 as nat);
    let c = dec(e.weight as nat);
    lemma_dec_no_newline(e.from.0 as nat);
    lemma_dec_no_newline(e.to.0 as nat);
    lemma_dec_no_newline(e.weight as nat);
    lemma_newlines_none("  "@);
    lemma_newlines_none(" -> "@);
    lemma_newlines_none(" [label=\""@);
    lemma_newlines_one_at_end("\"];\n"@);
    lemma_newlines_add("  "@, a);
    lemma_newlines_add("  "@ + a, " -> "@);
    lemma_newlines_add("  "@ + a + " -> "@, b);
    lemma_newlines_add("  "@ + a + " -> "@ + b, " [label=\""@);
    lemma_newlines_add("  "@ + a + " -> "@ + b + " [label=\""@, c);
    lemma_newlines_add("  "@ + a + " -> "@ + b + " [label=\""@ + c, "\"];\n"@);
}

/// The node lines of `n` nodes are `n` lines.
proof fn lemma_node_lines_newlines(n: nat)
    ensures
        newlines(node_lines(n)) == n,
    decreases n,
{
    if n > 0 {
        lemma_node_lines_newlines((n - 1) as nat);
        lemma_node_line_newlines((n - 1) as nat);
        lemma_newlines_add(node_lines((n - 1) as nat), node_line((n - 1) as nat));
    }
}

/// The edge lines of `es` are one line per edge.
proof fn lemma_edge_lines_newlines(es: Seq<Edge>)
    ensures
        newlines(edge_lines(es)) == es.len(),
    decreases es.len(),
{
    if es.len() > 0 {
        lemma_edge_lines_newlines(es.drop_last());
        lemma_edge_line_newlines(es.last());
        lemma_newlines_add(edge_lines(es.drop_last()), edge_line(es.last()));
    }
}

/// Law: the DOT text has exactly one line per node, one per stored edge,
/// the opening line and the closing line: nothing is dropped or repeated.
pub proof fn lemma_dot_line_count(adj: Seq<Seq<Edge>>)
    ensures
        newlines(dot_text(adj)) == adj.len() + crate::graph::total_len(adj) + 2,
{
    reveal_strlit("digraph G {\n");
    reveal_strlit("}\n");
    let head = "digraph G {\n"@;
    let nl = node_lines(adj.len());
    let el = edge_lines(all_edges(adj));
    let tail = "}\n"@;
    lemma_newlines_one_at_end(head);
    lemma_newlines_one_at_end(tail);
    lemma_node_lines_newlines(adj.len());
    lemma_edge_lines_newlines(all_edges(adj));
    crate::graph::lemma_all_edges_len(adj);
    lemma_newlines_add(head, nl);
    lemma_newlines_add(head + nl, el);
    lemma_newlines_add(head + nl + el, tail);
}

/// Renders a graph as a Graphviz DOT directed graph; edge weights become
/// `label` attributes.
pub fn to_dot(g: &Graph) -> (s: String)
    ensures
        s@ == dot_text(g@),
{
    proof {
        use_type_invariant(g);
        g.lemma_inv();
    }
    let ghost adj = g@;
    let n = g.node_count();
    let mut s = String::from_str("digraph G {\n");
    let mut i: usize = 0;
    while i < n
        invariant
            adj == g@,
            n == adj.len(),
            n <= u32::MAX,
            i <= n,
            s@ == "digraph G {\n"@ + node_lines(i as nat),
        decreases n - i,
    {
        let ghost before = s@;
        s.append("  ");
        push_decimal(&mut s, i as u64);
        s.append(" [label=\"");
        push_decimal(&mut s, i as u64);
        s.append("\"];\n");
        proof {
            assert(s@ =~= before + node_line(i as nat));
        }
        i = i + 1;
    }
    let ghost header = s@;
    proof {
        assert(all_edges(adj.take(0)) =~= Seq::<Edge>::empty());
    }
    let mut src: usize = 0;
    while src < n
        invariant
            adj == g@,
            n == adj.len(),
            n <= u32::MAX,
            src <= n,
            s@ == header + edge_lines(all_edges(adj.take(src as int))),
        decreases n - src,
    {
        let nb = g.neighbors(NodeId(src as u32));
        let m = nb.len();
        let ghost before = all_edges(adj.take(src as int));
        let mut j: usize = 0;
        while j < m
            invariant
                adj == g@,
                src < n,
                nb@ == adj[src as int],
                m == nb@.len(),
                j <= m,
                s@ == header + edge_lines(before + nb@.take(j as int)),
            decreases m - j,
        {
            let e = nb[j];
            let ghost prev = s@;
            s.append("  ");
            push_decimal(&mut s, e.from.0 as u64);
            s.append(" -> ");
            push_decimal(&mut s, e.to.0 as u64);
            s.append(" [label=\"");
            push_decimal(&mut s, e.weight as u64);
            s.append("\"];\n");
            proof {
                let es = before + nb@.take(j + 1);
                assert(es.drop_last() =~= before + nb@.take(j as int));
                assert(es.last() == e);
                assert(s@ =~= prev + edge_line(e));
            }
            j = j + 1;
        }
        proof {
            assert(nb@.take(m as int) =~= nb@);
            assert(adj.take(src + 1).drop_last() =~= adj.take(src as int));
            assert(all_edges(adj.take(src + 1)) =~= before + adj[src as int]);
        }
        src = src + 1;
    }
    s.append("}\n");
    proof {
        assert(adj.take(n as int) =~= adj);
    }
    s
}

} // verus!
