# fruity

An entity component system for a small game engine, whose storage,
bookkeeping, scheduling and query logic is written in Verus and proved
against its contracts.

## Layout

- `src/` — the verified library.
  - `encodable`, `encodable_vec`, `runtime_tuple`: values stored as bytes,
    and collections that keep their encodings packed in one buffer.
  - `component`, `names`, `grouping`, `storage`: components, class names and
    their order, and the per-class storages of an archetype.
  - `archetype`, `inner_archetype`, `guards`, `rwlock`: the entities that
    share a component structure, and read and write accesses to them.
  - `entity_service`: every entity, by id; snapshots and their restoration.
  - `system_service`: system pools, and which systems run at each run.
  - `serialized_query`, `query`, `with`: queries over the entities.
  - `extension_component_service`, `settings`, `graphic`: component
    extensions, settings trees and the resource settings read from them.
  - `yaml`: YAML text, parsed by `yaml-rust`, turned into settings trees.
- `tests/` — tests of the library on concrete values.
- `app/` — what stays outside the proofs: dynamic typing, the
  floating-point math types, reading settings files from disk, and running the
  scheduled systems on a thread pool.
