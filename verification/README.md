# bevy_ecs (verified core)

The bookkeeping at the heart of an entity-component-system scheduler and
storage layer, written in Verus: every function in `src/` carries a
`requires`/`ensures` contract that Verus proves.

## Layout

- `src/` — the verified library.
  - Storage: `index`, `archetype_maps` (sparse vectors and maps),
    `component`, `table`, `archetype` (archetypes and the edges between
    them, with component and bundle moves), `bundle` (bundle infos and the
    bundle registry), `type_def` (sorted component sets), `entity`.
  - Access and scheduling: `access` (read/write sets and their conflicts),
    `descriptor`, `groups` (building schedulings), `registry` (the system
    registry and its graphs), `hierarchy` (walking the set hierarchy),
    `schedule` (cycle, hierarchy, ambiguity and conflict checks),
    `set_executor` (laying out a set for a runner).
  - Running: `runner` (single-threaded and simple runners as state
    machines), `scheduled` (running one system on its own, as a state
    machine), `multi_threaded` (the bookkeeping of the multi-threaded
    runner), `condition`, `fsm`, `input`.
  - Application: `app` (plugin registry and lifecycle), `plugin_group`.
  - `bitset` holds the contracts of the `fixedbitset` operations used; the
    strongly connected components come from `petgraph` (see `schedule`).
- `tests/` — tests of the library on concrete values.
- `app/` — ordinary Rust around the library: a driver that carries out
  what the runners ask for, plugin groups that keep the plugins themselves,
  and a registry whose labels are names.
