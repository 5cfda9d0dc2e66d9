# brutal_quic

A verified core for Brutal, a bandwidth-hint-driven congestion controller for QUIC, and
for the transport configuration that selects it.

- `src/` is the library, verified with Verus. It computes with binary64 numbers through
  integers, so that windows, ACK rates and bandwidths have exact contracts.
- `tests/` runs the library, and holds it against the machine's floating-point numbers.
- `app/` puts the controller behind quinn's `Controller` and the configuration behind
  serde.
