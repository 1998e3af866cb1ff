# flowistry

Information-flow analysis for Rust functions, verified with Verus.

Given the MIR of a function (as plain data: basic blocks, statements,
terminators, local types, spans) and the outlives constraints of its borrow
check, the library computes, for every program location, which places and
which locations each place depends on. From that it answers three questions:

* **slices** — the source ranges that influence a selection (backward) or
  that it influences (forward);
* **effects** — the writes a function makes to its return value and to
  what its arguments point to, each with its backward slice and the part of
  that slice no other effect shares;
* **whole programs** — with the `Recurse` context mode, a call into a local
  function is analysed through the callee's own results instead of its
  signature; with the `Conservative` pointer mode, pointers to values of the
  same type are taken to alias.

## Layout

* `src/` — the verified library.
  * `indexed`, `mir`, `ty`, `body` — index sets and matrices, places and
    their relations, types and the regions inside them, bodies and their
    control-flow graph.
  * `loans`, `aliases`, `domain` — loans of each region, region
    reachability, conflicts between places, and the place domain.
  * `flow`, `transfer`, `fixpoint` — the dependency domain, the transfer
    function, and the least fixpoint over the reachable blocks.
  * `dependencies`, `spans`, `slicing` — dependencies of targets in either
    direction, source spans of locations and places, and slices.
  * `effects`, `calls`, `program` — effects of a function, summaries of
    calls analysed in their callees, and the program-wide analysis that
    analyses each function once.
  * `config`, `driver`, `launch`, `scrape` — ranges in source files,
    evaluation modes, the arguments of the compiler driver, the target and
    cargo arguments of the cargo subcommand, and the slicer's rustc
    arguments taken from cargo's output and unit graph.
* `tests/` — tests of the library on hand-built bodies.
* `app/` — the parts that need I/O, the clock, serde or a scoped
  evaluation mode: JSON output types, the driver's environment, the cargo
  subcommand's command line and workspace metadata, the runs of cargo and
  the metadata directory the slicer reads, timers.
