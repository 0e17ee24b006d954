# vckss_core

The verified integer core of a numerical backend for bias-corrected variance
components in worker–firm fixed-effects models. Every function under `src/`
is verified by Verus against its contract. A handful of small wrappers around
standard-library calls (sorting, reserving, the clock, sharing an `Arc`) carry
contracts that Verus takes on trust, and the cancellation token's reads of its
shared atomic flag state nothing of the flag's value, which other threads may
change at any time.

## Layout

- `problem` — canonical observation rows with dense worker, firm and
  deletion-unit identifiers, and the invariant every constructor establishes.
- `graph` — sample selection on the worker–firm graph: the largest connected
  component (ranked by firm count, then physical mass, ties refused), and the
  fixed points that remove one-firm workers, physical singletons, worker cut
  vertices and deletion-unit bridges, with the certificate each selection
  proves of its result.
  - `graph::component` — labelling of components and the largest one.
  - `graph::bridges`, `graph::cuts` — iterative depth-first searches for cut
    edges and cut vertices, proved to flag exactly the edges and nodes whose
    removal disconnects the graph locally (`bridge_steps`, `cut_steps`,
    `scans` hold the step lemmas).
  - `graph::dfs`, `graph::units` — the same facts lifted from the search
    graphs to rows, deletion units and workers.
  - `graph::fixed` — the two fixed points as mathematical iterations (keep
    the largest component, prune, repeat until settled). The selections are
    proved to return exactly these rows, to count their rounds, to succeed
    whenever no round is empty or tied and pruning settles in its bound, to
    refuse only with the error that names the obstacle, and to be stable
    under a second selection.
  - `graph::whole` — a sample that already passes a certificate is kept whole.
- `memory` — optional command memory budgets and their admission laws.
- `interrupt` — cooperative interruption checkers.
- `sort` — chunked, interruptible stable and unstable sorts, proved to return
  sorted permutations (stable ones keeping equal items in input order).
- `generic_jla`, `jla`, `model_diagonal_queue` — checked byte forecasts,
  deletion-group indexes, plan checks and execution receipts.
- `allocation`, `error` — fallible reservations and typed errors.

`tests/` exercises the library on concrete inputs.
