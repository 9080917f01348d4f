# copc_writer

The decisions of a COPC (cloud optimized point cloud) file writer, as a Verus
library: planning a file from a header, placing points in an octree, keeping the
records of each octree node within a memory budget, choosing what leaves memory,
and keeping the hierarchy of what is written. Every function states what it
returns or changes, and Verus proves it.

The library computes with integers and bytes only. Coordinates and times are
carried as the bits of binary64 numbers: they are compared and stored, never
added or multiplied. What needs floating-point arithmetic, a compressor or the
file system is done by the caller, step by step, as the library asks for it.

## Layout

- `src/writer.rs` plans files and holds the writer's state; `src/session.rs` is the
  state of one sequence of points; `src/steps.rs` is the way of a point into the
  file, and the closing of the file.
- `src/octree.rs` and `src/voxel.rs` are the two strategies, `src/ingest.rs` says
  which points are taken and what is reported.
- `src/chunk_store.rs` keeps the records; `src/grouping.rs` puts chunks together when
  the file is closed, so that no node has too few points.
- `src/ledger.rs` is what a writer has taken in, as a function of the points alone;
  the steps lead from ledger to ledger. `src/laws.rs` states what holds of ledgers,
  and so of every file: nothing is lost, no node is entered twice, none is too small,
  each can be reached from the root, and neither the memory at hand nor who watches
  has a part in it.
- `src/record.rs`, `src/crs.rs`, `src/compression.rs`, `src/point_format.rs` and
  `src/hierarchy.rs` are the records of a file.
- `src/geometry.rs`, `src/scalar.rs`, `src/key.rs`, `src/keymap.rs`, `src/order.rs`,
  `src/tally.rs`, `src/bytes.rs` and `src/text.rs` are what the others build on.
- `app/` writes real files: streams, compression, spill files, arithmetic.
- `tests/` runs the library, with a driver that keeps files in memory.

## What is taken on trust

The functions of `las`, `laz`, `las_crs`, `crs_definitions` and `std` that the
library calls stand behind small functions marked `external_body`. The comment
above each says what is claimed of it.
