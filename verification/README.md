# graph_algorithms

Graph algorithms over an adjacency-list graph, written in Verus: every
function carries a contract that the verifier checks.

- `src/graph.rs` — node ids, weighted edges, the graph and its transpose.
- `src/paths.rs` — walks, reachability, distances and weak connectivity:
  the vocabulary the contracts are stated in.
- `src/traversal.rs` — breadth-first search, depth-first search (exact
  visit orders), Dijkstra's shortest paths.
- `src/community.rs` — weakly-connected components and Kosaraju's
  strongly-connected components, with the partition check.
- `src/viz.rs` — Graphviz DOT export.
- `src/cli.rs` — the `graph` command's logic: input, source check, answers,
  and the uniqueness of each answer.
- `src/layout.rs` — structural checks on SVG slide masters.
- `src/contracts.rs` — query terms and binding discovery for provable
  contracts.
- `src/demo.rs` — the aprender-graph demo's search and component check.
- `src/transpose.rs` — what reversing every edge keeps: weak and strong
  components, and each adjacency list up to order after two transposes.
- `app/` — the `graph` binary (JSON in and out, PageRank in floating point).
