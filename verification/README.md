# crochet_core

The insertion-graph engine of a crochet-scheme design tool, verified with Verus.

- `src/` — the verified library: the stitch registry (`stitch`), the insertion
  graph (`graph`), the structural placement plan (`geometry`), the graph
  relations relaxation acts on (`relax`), path segment ownership (`path`),
  round-count checking (`validate`), yarn bar counts (`yarn_shape`) and the
  demo schemes (`demo`). Every public function states its result in its
  `ensures`; the laws of the library are public proof functions.
- `tests/` — executable tests of the library.
- `app/` — the floating-point simulation around it (coordinates, yarn curves,
  rod mechanics, collision detection, relaxation forces, self-intersection
  checks) and the WASM bridge to the browser viewer.
