# arith_bdd

Word-level arithmetic and RISC-V helper circuits as binary decision diagrams,
their conversion into levelled "up-down" circuits, and generation of Rust
source for those circuits, verified with Verus.

- `src/bdd.rs`, `src/digraph.rs`: the diagram and graph types of the
  `biodivine-lib-bdd` and `petgraph` crates, with the contracts of the calls
  that the library makes into them.
- `src/arithmetic.rs`, `src/bitwise.rs`, `src/comparitor.rs`, `src/shift.rs`,
  `src/extras.rs`, `src/pc_update.rs`: the circuits; each states the word-level
  function it computes.
- `src/updown.rs`, `src/graph.rs`: the levelled circuits, their evaluation, and
  the conversion from diagrams, proved to compute the same function.
- `src/codegen.rs`: the generated source and the public `codegen_*` entry
  points.
- `src/pplove.rs`: the plaintext helpers of the packing experiments. The
  experiments themselves (encryption, external products, packing and noise
  measurement) are not part of this crate: they run on the poulpy FHE
  library, which is not a dependency here, and measure noise in floating
  point.
- `app/main.rs`: writes the generated sources to `target/codegen`.
