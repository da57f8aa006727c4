# sparse_ecs

An entity-component store whose bookkeeping is verified with Verus.

- `src/containers/`: `GenerationalIndex` (a 20-bit slot and a 12-bit generation packed in
  a `u32`), `SparseSet` (values in insertion order behind a slot table), `GlobalContainer`
  and the container traits.
- `src/ecs.rs`: entities, typed and run-time-typed handles, the id counter (one counter hands
  out the ids of entities and handles alike, each once), resource names.
- `src/world.rs`: `Registry`, which records the entities, which component types each has
  (keyed by `TypeId` in foldhash maps) and the hierarchy of entities, with its walks.
- `src/query.rs`: choosing the container that drives a system, and planning system runs.
- `src/foreign.rs`: the trusted declarations of `TypeId`, the foldhash hasher and the map
  operations the registry uses.
- `app/`: the typed world (`Ecs`) around the registry: component values of any type in
  type-erased containers, resources, systems built from closures, and triggers. It keeps the
  one id counter of the process, from which every world and every handle draws.
