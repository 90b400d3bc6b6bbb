# zeroclaw gateway

The gateway logic of the ZeroClaw agent runtime, verified with Verus.

- `src/gateway/session_keys.rs` parses scoped session keys
  (`zcs_<scope>_<random>`) and decides which operations a key may perform.
  Contracts are stated over `spec_parse` and `scope_allows`.
- `src/gateway/control_plane.rs` is the node registry: registration under a
  capacity, deregistration, heartbeats, the health tick that degrades nodes
  which stop reporting, and the queue of control events. Its view is a map
  from node id to node; each operation is specified by a step function on
  that view, and the laws relate the steps.
- `src/gateway/backoff.rs` holds the integer side of retry backoff (the
  saturating attempt counter and the jitter sample).
- `src/gateway/clock.rs` reads the wall clock through chrono.
- `app/` shares the control plane behind a lock, publishes its events as
  JSON on a tokio broadcast channel, runs the health monitor, carries the
  serde forms of the types, and computes backoff delays in floating point.
