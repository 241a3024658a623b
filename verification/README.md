# connected_cut

Tools for the minimum connected cut problem: choose `k` vertices that
induce a connected subgraph, contain a given source vertex, and cut as few
edges as possible.

- `src/` is the verified library.
  - `graph.rs`: the `petgraph` graph of an instance and what the library
    assumes of the `petgraph` calls it makes.
  - `grammar.rs`, `instance.rs`: the instance file format (`[a;b]` edges,
    `s=` source, `k=` capacity) and its reader.
  - `lp.rs`: the linear program and integer program in LP file format,
    with flow bounds from hop distances, and forced edges.
  - `scan.rs`: the entries of solution files and of enhancement files.
  - `lp_readback.rs`: the proof that a written program reads back its
    forced edges, each both ways, and nothing else.
  - `cut.rs`, `apx.rs`: cut sizes, cut marks and the weights they set,
    the directed edges of a solution's graphs, and the randomized
    approximation as a state machine.
  - `generator.rs`, `roundtrip.rs`: predefined instances, and the proof
    that a written instance file reads back as the instance.
- `app/` is the command-line program: file I/O, floating-point solution
  values, the random choice, and DOT output.  Run under the name `graph`
  it is the older graph tool.
- `tests/` runs the library on concrete inputs.
