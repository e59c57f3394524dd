# sidecraft

The verified core of a side-on voxel sandbox: dense 32 by 80 chunks with a foreground and a
backwall layer, six generated depth slices, six-neighbour sky and block lighting, atomic block
mutation batches, a 20 TPS simulation clock with a per-chunk work queue, chunk streaming, and
the `.scw` world package format. Every executable function in `src/` carries a Verus contract.

Layout:

- `src/domain/` — blocks, chunks and the block grid, mutation batches, terrain generation from
  a table of surface heights, lighting, the day clock, targeting, and the simulation clock,
  queue and regions.
- `src/application/` — world state and commands, snapshots and their validation, streaming,
  the simulation frame, saving and sessions, and what the presentation must rebuild (dirty
  sets, light refresh, chunk faces and colliders, scene work).
- `src/storage/` — the world package: names, the compressed envelope (through `zstd`), region
  encoding and decoding with its round-trip law, and the package manifest.
- `src/logging.rs`, `src/environment.rs` — session log names and retention, settings read from
  the environment.
- `tests/` — tests run against the compiled library.
- `app/` — a command-line program around the library: file I/O, postcard parsing, floating
  point terrain noise, spawning and the frame clock in seconds.
