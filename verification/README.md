# woa_core

The rules of an ant-colony simulation with two map layers (surface and
underground), written in Verus.

- `src/` — the verified library: tile grids and world generation (`world`),
  8-directional A* with dig-aware costs and no corner cutting (`path`), the
  entity registry (`roster`), the colony's economy and the queen's brood rules
  (`colony`), the worker AI's decision step (`worker`) and a whole tick of it
  (`tick`), configuration, command checks and route planning (`sim`), and the
  balance constants (`balance`).
- `app/` — the unverified shell: the ECS-backed simulation loop with its
  continuous movement, combat, predators and timers, the seeded random number
  generator, the browser bindings, and the HTTP health server that
  `app/main.rs` runs.
- `tests/` — executable tests of the library.
