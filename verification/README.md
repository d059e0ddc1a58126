# popcircles

Finds the smallest circle on the globe, by great-circle radius, that contains a given share of the
world's population, from a gridded population raster folded into a summed-area table.

## Layout

- `src/` is the library, verified with Verus. It holds the program's integer and text decisions:
  - `grid`: a grid's shape, its rows and columns, and the wrap of a column index around the seam.
  - `table`: the summed-area table's indexing, the rectangles a query reads (one, two across the seam,
    one for the full turn), the decimation of a grid, and the proof that what the rectangles read is
    exactly the population of the cells a query covers. `table::cache` holds a cache's paths, the
    header's checks and a payload's length.
  - `kernel`: the spans a cap covers, settled from a membership test; where the band of rows a cap
    reaches ends; and the placement of a span on a centre column.
  - `search`: the blocks of the branch and bound, their tiling, probes and splits (with the rounds
    splitting takes), the walk over levels with its completeness proof and the runs a progress sink
    hears per level, and the tie-break between candidates.
  - `smallest`: the search over radius — the climb, the bisection and the bracket it proves — run to
    its answer over a caller's search, ledger and progress sink. Each radius is searched at that radius
    unless the ledger answers it; what a ledger and a sink are told is stated over what they promise
    (`RadiusLedger::faithful` and `keeps`, `Progress::keeps`), which is how a resumed run's reuse is
    stated. Beside it, the span of probes the summation slack leaves unseparated, and
    `smallest::cache`, the ledger of probed radii with its load and publication order.
  - `raster`: the classification of a cell by its bit pattern, the sanitising of a row, and the shape
    check of rows held in memory.
  - `bracket`, `progress`, `report`, `cli`, `text`: the debug record pairs, the progress sink, the
    integer blocks of the published documents, exit codes and messages, log lines, level and digest
    parsing, and the number formatting they rest on.
- `app/` is the program around it: the floating-point geometry (distances, caps, the bound a block
  carries, populations and the comparisons between them, including the loop that drives a walk over
  blocks with them), the files and their serde documents, the command line, and the stderr sinks.
- `tests/` exercises the library from outside.
