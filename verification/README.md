# pixm

Deterministic simulation and peer-to-peer rollback netcode for a 2D MOBA,
written in Verus: the game's rules, pathfinding and netcode state machines
carry contracts that the verifier proves.

- `src/game`: fixed-point numbers and vectors, the entity world, the
  simulation systems (movement, abilities, combat, buffs, projectiles, lane
  AI), A* pathfinding with string pulling, input collection and the data the
  renderer reads.
- `src/net`: selective ACK and packet framing, clock synchronisation, STUN
  message handling, room ids and join links, coordinator election, the
  session's decisions, and rollback (snapshots, prediction, re-simulation).
- `app`: the Godot node, sockets, bitcode serialisation, floating-point
  network statistics and the loops that drive the library.
- `tests`: tests of the library, run against the compiled crate.

The entity store is the library's own slot vector (`src/game/base/ecs.rs`),
so its contents can be stated and proved; queries visit entities in id order
and ids are never reused. The `hecs` line in `Cargo.toml` is not used by any
code.
