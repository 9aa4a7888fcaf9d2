# rugc

A deterministic geometric reasoning library, verified with Verus.

Semantic constraints (subject, predicate, optional object, polarity, weight)
are turned into nodes, projected onto a semantic field of integer lattice
points, transformed by resonance, checked for polarity conflicts, fused
across frames of constraints, and steered by concept anchors that persist
from iteration to iteration. Every ordering is fixed by the data alone.

## Layout

- `src/text.rs`: code-point order of texts, decimal and hex rendering, small
  character edits, text sorting.
- `src/table.rs`: `KeyedTable`, a map from texts kept as a strictly sorted
  entry list, with its map view.
- `src/geom/`: lattice coordinates, the semantic field, resonance modes and
  the cognitive kernel (invariants, closure status, constraint system).
- `src/cognition/`: constraints and their order, nodes, the evaluation
  engine, the deterministic task scheduler, cross-frame fusion, anchors,
  emergent concepts, the bookkeeping of an iteration, and the relational
  distance of consolidated memories.
- `app/`: serialisable twins of the library's records and the JSON hash
  used on artifacts.
- `tests/`: executable tests of the library.

The steps of a multi-frame iteration are here, each verified; the loop
that drives them (`MultiFrameCognition::run`) is not part of the library,
because the field's energy normalisation and compression, its clustering
and canonical hash, sense disambiguation and frame closure that it relies
on are not either.

Each public function states its result in its `ensures` over spec
functions (the emergent-concept hash always succeeds, and says so);
the laws of the library (orders, uniqueness of sorted results,
the work-stealing plan being the ascending id order for every worker
count, idempotent appending, composition of uniform deltas, consistency of
fused constraints, what the anchor registry holds after a merge, bounds and
symmetry of distances) are public proof functions.
