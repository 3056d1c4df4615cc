# sqlitegraph

Graph algorithms over an in-memory graph of entities and directed edges, with
their behaviour stated in contracts and proved by Verus.

## Layout

- `src/` — the verified library.
  - `graph.rs`: the graph (entities get the ids 1, 2, 3, ... in insertion order) and
    its well-formedness.
  - `reach.rs`: paths, reachability and distances, and the lemmas the searches use.
  - `traversal.rs`, `graph_ops.rs`: breadth-first and depth-first traversals, k-hop
    neighbourhoods, shortest paths, topological order, strongly connected components.
  - `pattern_match.rs`, `graph_rewriting.rs`: subgraph pattern matching and rewriting
    by rules.
  - `cut_partition.rs`, `partition.rs`: minimum s-t edge and vertex cuts (by maximum
    flow), and BFS, greedy and k-way partitioning.
  - `call_graph.rs`: collapsing strongly connected components into supernodes.
  - `dominators.rs`, `natural_loops.rs`, `control_dependence.rs`,
    `program_slicing.rs`: control-flow analyses.
  - `observability.rs`: vector clocks and happens-before race detection.
  - `graph_diff.rs`, `critical_path.rs`: graph differences, refactor verdicts and the
    errors of the critical-path search.
  - `hashing.rs`, `json.rs`: the trusted specifications of the `ahash` collections and
    `serde_json` values that the library calls.
  - `text.rs`: the decimal text of integers, for messages.
- `tests/` — tests of the library.
- `app/` — the parts that compute in floating point (PageRank, betweenness,
  weighted critical paths and impact radii, diff verdicts, the fractional partition
  imbalance), written against the library.
