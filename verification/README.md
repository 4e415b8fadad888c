# gaussrdl

A relational-graph library for graph learning, in two layers.

- `src/` is the verified library (Verus). It holds the structural logic:
  node identifiers and their text forms, graph construction under limits
  (node and edge counts, density, cycles, connectivity), reachability,
  connected components, shortest paths and shortest-route counts,
  breadth-first visit order, greedy colouring, label propagation and
  community aggregation, the subgraph samplers' layer, walk and edge
  collection logic, entity adjacency lists, sparse coordinate lists, memory
  bookkeeping, run-length and header codecs, DOT export, error
  classification and the configuration types of the models and metrics.
  Every public function states its result in its `ensures`; the `law_*`
  proof functions state the properties that relate several functions.
- `app/` is ordinary Rust around it: the tensor-backed graph, file input and
  output, the floating-point algorithms (PageRank, eigenvector and
  betweenness scores, weighted paths, clustering, layouts), rayon-based
  parallel helpers, metric computations and the serde copies of the
  library's types.

Random choices come from `rand`, through a few trusted wrappers in
`src/sampling.rs` and `src/sampler.rs` whose contracts
state only what holds of every outcome. The hash that names a node built
from text comes from the standard library's default hasher, through a
trusted wrapper in `src/node_id.rs`.

`tests/` exercises the library on concrete graphs.
