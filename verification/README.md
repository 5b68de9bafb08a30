# walkthrough

A recursive directory walker with depth bounds, symlink-loop detection,
ordering, hidden-entry skipping, filtering and `limit`/`offset` paging, whose
decisions are proved correct with Verus.

## Layout

- `src/` — the verified library. It does no I/O: a walk is the state machine
  `walk::Traversal`, which asks its driver for each piece of filesystem work
  (identify a directory, read it whole, open it, hand over the next batch) and
  decides from the answers what is yielded and what is descended into.
  - `walk.rs` — the traversal and its one-step laws (depth window and hidden
    entries, loop reporting, the limit ending the walk).
  - `preorder.rs` — what a whole walk yields: the depth-first pre-order of
    the tree pruned by the options, with loop errors in place of repeated
    directories and paging applied, and that the walk ends.
  - `footprint.rs` — what a walk holds at once: the open directories of the
    current path, at most one batch each, bounded by the depth limit; and
    only directories the options let it descend into are read.
  - `reach.rs` — every entry the options keep is yielded.
  - `exact.rs` — in a tree, the walk yields exactly the entries the options
    keep, each once, and siblings in the order of their listing.
  - `order.rs` — the total order of one directory's entries (grouping,
    failures, key, name) and a verified merge sort.
  - `pager.rs` — `skip(offset).take(limit)` and its laws.
  - `slots.rs` — results of concurrent work kept in input order.
  - `entry.rs`, `error.rs`, `options.rs`, `text.rs` — entries, errors,
    options and error messages.
- `app/` — the drivers: the blocking `WalkDir` iterator and the `tokio`-based
  `AsyncWalkDir` stream, which read directories, resolve metadata, await the
  caller's sort keys and filters, and hand the results to the library.
- `tests/` — the walk driven over an in-memory tree, and unit tests.
