# micro_core

The integer core of a mass-entity swarm simulation, verified with Verus.

- `src/` — the verified library: terrain cost grids (`terrain`), bit-packed
  fog of war and its per-tick update (`visibility`, `vision`), navigation and
  interaction rules (`rules`), faction registries and their timers
  (`registry`), macro directives and their executor (`directive`), flow-field
  costs and their periodic recomputation (`flow_field`, `flow_update`), zone
  overlays with the wall guard (`overlay`), visualizer commands (`commands`),
  interaction gates (`combat`), state-vectorizer counts (`vectorizer`), the
  simulation clock and schedules (`sim`), and properties spanning several
  operations (`laws`). Float quantities are carried as an opaque type
  parameter; no verified code reads them.
- `tests/` — tests of the library on concrete values.
- `app/` — the Bevy glue: components, resources, systems, float geometry, the
  float combat and steering systems (which call the library's gates), the JSON
  protocol of the debug visualizer and the browser entry points.
