# slant

A simulation library for mobile ad hoc networks, verified with Verus.

Every node carries a movement behaviour and a node behaviour. Each tick the clock moves on,
every node moves to the position its movement behaviour returns, and every node behaviour is
handed the packets delivered to the node during the previous tick. Behaviours transmit packets
through the global state manager; the propagation model decides which nodes hear them, and the
packets reach those nodes' behaviours on the next tick.

Simulation time is kept in integer time units and positions in integer coordinates, so that
the orchestration can be stated and proved exactly.

## Layout

- `src/clock.rs`: the simulation clock and the "closest tick" test behind `is_time`.
- `src/node.rs`, `src/packets.rs`: node data and the packet traits.
- `src/propagation_models.rs`: the propagation model traits and distance geometry.
- `src/spatial.rs`: the k-d tree (kiddo) used to find the nodes near a transmitter.
- `src/rng.rs`: the per-node random number generators (rand, rand_xoshiro).
- `src/stats.rs`: per-tick counters and events.
- `src/behaviours.rs`: the behaviour traits, with what every behaviour must keep.
- `src/managers.rs`: the global state manager (transmission, randomness, stats) and the
  simulation manager (construction, ticking, ticking for a span of time).
- `src/builtin/`: built-in movement behaviours (static movement, random walk), node behaviours
  (an empty behaviour, periodic packet generation, flood routing), packet types (multicast,
  unicast, either) and the simple distance propagation model.
- `src/traffic_generators.rs`: random background traffic.
- `app/`: the free-space (Friis) propagation model, which works in floating point.
- `tests/`: scenario tests.
