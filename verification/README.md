# relvar

Relational programs — graph search, automata, CRDTs, Petri nets, parsers,
pivots, CSV import and export, JSON export and the reading of parsed JSON
documents into relations, image convolution, an audited
change protocol, an entity component system and more — written as Verus code
over a small in-memory relation model and proved against their contracts.

## Layout

- `src/` — the verified library. `relation.rs` holds the relation model
  (a sorted heading of typed attributes and a set of tuples); each other
  module is one relational program over it or over plain values, with spec
  functions that say what it computes and proof functions for the laws that
  hold across calls.
- `tests/` — tests of the library on concrete values.
- `app/` — the unverified edges: reading files and parsing JSON text,
  driving an audited database, and the numerical experiments whose values are
  floating point (neural layers, Fourier transforms, k-means, Markov
  processes, physics, PageRank and the like).

The library calls `serde_json` (to read a JSON byte array and to write
pretty-printed JSON) and `rand` (to draw mock relations) through a few trusted wrappers, each documented where it
is declared.
