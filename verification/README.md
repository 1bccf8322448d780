# persistent_agent

Persistent homology for agent behaviour analysis, with the combinatorial and
linear-algebra core verified in Verus.

## Layout

- `src/` — the verified library.
  - `gf2.rs`: sums of rows over GF(2), the row space, and the facts Gaussian
    elimination needs (row operations keep the row space; a reduced echelon matrix
    with `r` pivot rows has a row space of `2^r` vectors; the rank is unique).
  - `boundary.rs`: `BoundaryMatrix` (`zeros`, `get`, `set`, `rank`, `from_complex`).
    `rank` returns the GF(2) rank, stated as the size of the row space and of the
    column space.
  - `duality.rs`: row rank equals column rank over GF(2), by elimination to reduced
    echelon form while tracking the column space.
  - `complex.rs`: `FiltrationOrder`, the simplices of a filtered complex in
    filtration order, the spec of the faces that make up a boundary, and the law
    that the boundary of a boundary is zero mod 2.
  - `combinatorics.rs`: `combinations` and the simplices of a Vietoris-Rips complex,
    with the laws that the combinations are exactly the `k`-subsequences, `n choose k`
    of them.
  - `reduction.rs`: the standard persistence reduction of boundary-matrix columns
    (`low` pivots, left-to-right column additions), with the law that it leaves as
    many zero columns as the number of columns less the rank.
  - `homology.rs`: union-find with path compression over the edges of a filtration
    (proved against a component-labelling model, which is proved to be
    connectivity, with the joining edges a minimum spanning forest of the edge
    order), and the persistence bars of every homology dimension, as many as the
    cycles of that dimension.
  - `matching.rs`: an optimal bottleneck matching over cost ranks, the diagonal
    included: no matching uses a smaller largest rank. The bottleneck rank does not
    depend on the order of the two diagrams, is zero between a diagram and itself,
    and is the largest diagonal rank where one diagram is empty.
  - `layout.rs`: the text line of one bar of a barcode.
  - `archetype.rs`: `AgentArchetype` and the classification rule.
- `app/lib.rs` — the floating-point side: point clouds, distances, birth values,
  barcodes with real endpoints, persistence diagrams. It calls the library for
  everything that is not arithmetic on floats.
- `tests/` — tests of the library.
