# topology_bench

Graph topologies (star, chain, ring, complete mesh, Watts–Strogatz-style
small world, Erdős–Rényi random graph, custom) as dense adjacency matrices,
and the metrics used to compare them, with their contracts proved by Verus.

- `src/graph.rs` — the model: edges of a matrix, walks, shortest distances,
  edge counts, and `count_edges`.
- `src/metrics.rs` — breadth-first search, diameter and average path length
  (`path_metrics`), neighbour lists and the local clustering coefficient as
  an exact fraction.
- `src/topology.rs` — the topologies, their generators and the laws on their
  edge counts and clustering.
- `src/rewiring.rs` — the small-world rewiring replayed from its coin draws
  and target picks. The rewiring itself (`rewire` in `src/topology.rs`) reads
  its draws either live or from given sequences; `small_world_from_draws`
  returns exactly the replay of given draws, and the generator states that
  its result is the replay of the draws it made.
- `src/random.rs` — the random draws of `rand` that the random topologies use.
- `app/` — the command line, the floating-point metrics (spectral gap,
  diffusion speed, averages) and the weighted matrices around the library.

Probabilities enter the library as thresholds: `p` becomes
`ceil(p * 2^53)`, so that a draw of 53 random bits below the threshold is
exactly a uniform number in `[0, 1)` below `p`.
