# bevy_save

Saving, loading, checkpointing and migrating application state for Bevy,
with the library's logic verified by Verus.

## Layout

- `src/` — the verified library:
  - `version.rs`: semantic versions read, compared and printed through the
    `semver` crate;
  - `rollbacks.rs`: checkpoints that can be rolled back and forward;
  - `registry.rs`, `reflect/checkpoint.rs`: type filters for rollbacks and
    checkpoints;
  - `reflect/backcompat.rs`, `reflect/migration/`: snapshot format versions
    and per-type migrations;
  - `reflect/snapshot.rs`: the snapshot builder, and reading older
    snapshots;
  - `reflect/serde.rs`, `reflect/fields.rs`: serialized keys, their order and
    resolution against a type registry, and the field rules of the
    serialized structs;
  - `reflect/applier.rs`, `snapshot_apply.rs`, `entity_map.rs`: what
    applying a snapshot does with each value, which entities it despawns,
    and how snapshot entities are mapped to world entities;
  - `apply_schedule.rs`: the order of everything applying does (values,
    prefab spawns, hooks), for reflected and raw snapshots;
  - `scene.rs`: scenes of saveable entities;
  - `utils.rs`, `saver.rs`, `typed.rs`, `sorted_map.rs`: small helpers.
- `tests/` — tests of the library on concrete values.
- `app/` — the Bevy side: save formats, error messages, capturing,
  reading, writing and applying snapshots with the library's decisions.
