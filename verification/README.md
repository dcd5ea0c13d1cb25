# topology_checker

Verified analysis of a block-distribution topology and of signed votes.

- `src/graph.rs`: the indexed topology (`Topology`, `Node`) and the model of
  reachability: `within` (ids reached in at most `k` hops), `layer` (ids at
  shortest distance exactly `k`), `reachable`.
- `src/bfs.rs`: breadth-first exploration one hop level at a time, proved to
  produce exactly the layers, in discovery order, with the link through which
  each node was first reached.
- `src/network.rs`: diameter, stake isolated by each node's failure, local
  clustering counts, link counts, and `analyze_network_stats` over them.
- `src/hops.rs`: `analyze_hop_stats`, the hops from one node.
- `src/bls.rs`, `src/vote.rs`: BLS signing and verification through `blst`,
  and the votes built on them.
- `app/`: named topologies read with serde, the floating-point figures
  (latencies, ratios, percentages), and random votes for property tests.
