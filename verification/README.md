# constellation

A data-oriented entity component system whose core is verified with Verus.

- `src/entity.rs`: entity handles, a 24-bit index packed with an 8-bit
  generation.
- `src/entities.rs`: the entity allocator (allocation, liveness, deletion and
  reuse of indices), entity transactions, and iteration over the entities
  that hold data in several resources at once.
- `src/resource.rs`: the `Resource` traits and the two entity resources,
  `VecResource` (indexed by entity index) and `MapResource` (keyed by entity).
- `src/world.rs`: resource registration, the batching of queued systems into
  conflict-free batches, and the commit of entity changes between batches.
- `src/bitset.rs`, `src/queue.rs`, `src/fnv_map.rs`: the contracts under which
  the library calls `hibitset`, `crossbeam` and `fnv`.
- `app/`: the type-keyed world and the system runner built on the library:
  resources stored by type, closures turned into systems, and command buffers
  executed batch by batch.

Run the tests with `cargo test`; verify `src/` with Verus.
