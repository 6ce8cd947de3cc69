# hpgo

Planning for distributed training, verified with Verus: the HLO module
model, the split derivations of its instructions, constraint propagation
over them, the split graph, and the parts of pipeline and data-parallel
planning that work on integers.

## Layout

- `src/ir/` — the HLO representation and its analyses:
  - `hlo_ast.rs`: functions, instructions, meta data, and the positional
    caches of a module;
  - `derive.rs`: the split maps that each kind of instruction allows, and
    the derivation cache of a module;
  - `propagate/`: the propagation context (`context.rs`), the breadth-first
    propagation of one split (`bfs.rs`), the enumeration of compatible
    splits of a function's parameters (`enumerate.rs`), fusion calls
    (`fusion.rs`), the variable graph (`vargraph.rs`) and the guarantees of
    all of these (`laws.rs`);
  - `graph.rs`, `graph_build.rs`, `graph_laws.rs`, `ungraph.rs`: the split
    graph kept in a petgraph `Graph`, how a build visits instructions, and
    what every build guarantees;
  - `prune/`: the order in which parameters are tried;
  - `conductor.rs`: a module together with its propagation context.
- `src/orchestration/`: reading a synchronous pipeline plan out of the
  planning matrix.
- `src/parallelism/`: gradient accumulation sizes.
- `app/`: the command-line program: reading a module from JSON.
- `tests/`: the tests, run against the compiled library.

Each public function states its result in its `ensures`; the laws that tie
several functions together are public proof functions named `law_*`.
