# graph_flow

Network flow algorithms with machine-checked contracts: maximum flow
(Ford-Fulkerson and Edmonds-Karp), minimum cuts, minimum-cost flow by
successive shortest paths with Bellman-Ford, maximum bipartite matching, and
circulations with demands.

Capacities, costs and demands are integers, so that every algorithm is exact.

## Layout

- `src/flow_spec.rs`: the model of a network, its residual networks and its
  flows; weak duality and the max-flow min-cut certificate.
- `src/lib.rs`: `FlowNetwork`.
- `src/max_flow.rs`, `src/edmonds_karp.rs`: maximum flow and minimum cuts.
- `src/cost_spec.rs`: costs of flows and walks, potentials, and the proof
  that a potential certifies a cheapest flow.
- `src/min_cost.rs`: `MinCostNetwork`, Bellman-Ford and successive shortest
  paths.
- `src/bipartite.rs`, `src/matching.rs`: matching by flow reduction, and the
  proof that the result is a maximum matching.
- `src/cover.rs`: vertex covers and independent sets; König's theorem, read
  off the cuts of the reduction.
- `src/circulation.rs`, `src/feasibility.rs`: circulation with demands and
  lower bounds, and the proof that the reduction finds one exactly when one
  exists.
- `src/circulation_total.rs`: the least total flow of a circulation, as a
  cheapest flow on the reduction.
- `tests/`: the tests, one file per module.
