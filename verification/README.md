# datakit

Data structures for grids and n-dimensional arrays, verified with Verus.

- `src/` is the verified library:
  - `collections/`: a string trie, sparse integer-keyed lists, shifted arrays, quad trees and a
    growable raw buffer.
  - `structures/`: n-dimensional indexers (compressing an index to one integer and back),
    index operators and face walks, n-dimensional and chunked arrays, neighbour lookups and the
    pairing schedule for updating neighbours at once, countable ranges and their products,
    doubly slices and grids (power-of-two layers), stepping iterators and ordering by
    constraints.
  - `math/`, `defines/`, `single_func.rs`: small helpers and traits.
- `tests/` runs the library on concrete values.
- `app/` holds what cannot be verified: floating-point functions, thread-parallel iteration
  over array pairs, and type-erased maps.
