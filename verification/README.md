# tsp

Route logic of a travelling-salesman solver, verified with Verus.

- `src/` — the verified library:
  - `tour`: tours as permutations of city indices, in-place segment reversal,
    the legs that make up a route's length;
  - `greedy`: nearest-neighbour construction over integer distance keys;
  - `held_karp`: recovery of the route from a Held-Karp backtrack table;
  - `two_opt`: 2-opt / annealing moves (which cities a move compares, applying it);
  - `blocks`: cutting the map into blocks, solving a block, joining block routes
    along a serpentine walk;
  - `depot`: rotating a closed tour to start at the depot, the legs a solver sums;
  - `pagination`: page size, offset and page count;
  - `labels`: the unescaped labels of the sample points.
- `app/` — the command-line solver and the web back end: file and database I/O,
  floating-point distances, random draws, threads.
- `tests/` — tests of the library on concrete inputs.
