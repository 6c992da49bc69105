# kcore

Distributed k-core decomposition of temporal graphs, verified with Verus.

A temporal edge list (`u v t` per line) is sorted by time and cut into
snapshots of a fixed length. Every node of the graph keeps, for each neighbour
it has seen, one bit per snapshot telling whether the edge was present; an
activation function (all, any or half of the recent bits) decides whether the
neighbour is still alive. On the alive graph the nodes run Montresor's
distributed coreness protocol: each node holds an estimate of its
neighbours' coreness and recomputes its own as an h-index of those estimates,
announcing every change to its neighbours until nobody has a change left.

## Layout

- `src/` — the verified library.
  - `activation.rs`: neighbour histories (bit-vectors of the `bitvec` crate,
    reached through trusted wrappers) and the activation functions.
  - `coreness.rs`: the h-index a node computes from its estimates.
  - `dynamic_montresor.rs`: alive nodes and the alive graph, snapshots and
    the round loop of the protocol.
  - `alive_rounds.rs`: the rounds of the protocol as the contracts state them,
    and the weights that show they come to an end.
  - `completely_new_algorithm.rs`: a broadcasting variant of the protocol.
  - `coreness_bounds.rs`, `alive_estimates.rs`, `announcements.rs`,
    `laws.rs`, `broadcast_laws.rs`: properties that span several calls.
  - `edge_list.rs`, `snapshots.rs`, `similarity.rs`, `sorting.rs`,
    `measure.rs`: reading, sorting and cutting the edge list, comparing
    snapshots, and helpers.
- `tests/` — tests of the library.
- `app/` — the command-line driver: file I/O, the expression for the
  snapshot length, floating-point statistics and the CSV output.
