# massively

Verified building blocks of a massively parallel vector-algorithm library:
scans, reductions, index reductions, radix sorting, merging, selections,
gathers and scatters, searches, segmented algorithms, expansions and lazy
row expressions.

Every device stage is written as a plain function over row vectors that
computes, block by block and lane by lane where the result depends on it,
what the stage writes; the host schedules that compose the stages are
written on top of them.  Each public function states its result over the
serial meaning of the algorithm, and Verus proves it; the laws that relate
several functions (scans and reductions, stable radix and merge orders,
lexicographic order) stand as public proof functions.

Layout:

- `src/` — the library, one module per family of algorithms:
  - `fold`, `scan`, `reduce`, `collective`, `segmented` — scans and
    reductions over associative operations (`ops`);
  - `arg_reduce` — positions of preferred rows (first minimum, last
    maximum, ...);
  - `lanes` — block, lane and plane geometry of the tree reductions;
  - `radix`, `merge` — stable radix ordering and stable merging;
  - `flags`, `selection`, `indexed`, `scatter_reduce` — selections,
    gathers, permutations and conflict-free scatters;
  - `search` — mismatches, lexicographical comparison, bounds;
  - `expansion` — variable-cardinality expansion (`flat_map`);
  - `eval`, `materialize` — lazy row expressions and copying them out;
  - `random` — counter-based uniform streams;
  - `arity`, `facade`, `bindings`, `launch`, `value`, `bits`, `error` —
    the fixed kernel interface and shared helpers.
- `tests/` — executable tests of the library.
- `app/` — floating-point front ends (float random streams, radix keys of
  float columns) over the library's verified integer parts.
