# satellite_constellation_system

Verified core of a satellite-constellation orbit-control and collision-warning
backend, written in Verus.

`src/` holds the logic that is proved:

- `udp_receiver` — the per-satellite telemetry reorder buffer (ordering by
  sequence number, release of contiguous runs, gap fill on overflow, late
  and repeated packets dropped), with laws on strictly increasing delivery
  across insertions, accounting of every packet, overflow handling and
  capacity;
- `alarm_commander` — the alarm decisions (record, push, automatic
  avoidance at level 2) and the registry of alerts with acknowledgement;
- `api` — alert-id parsing (through the `uuid` crate), alert lookup and
  acknowledgement, and the per-satellite risk levels of the listing and
  detail views;
- `collision_predictor` — the satellite pairs each analysis cycle examines;
- `orbit_optimizer_service`, `orbit_optimizer` — alert decisions of the alert
  managers and the integer bookkeeping of the island-model optimiser (island
  sizes, migration schedule and ring, orbital planes);
- `models`, `config` — risk levels, satellite names, coverage status and the
  plain configuration records.

`app/` is the service around it: UDP and HTTP I/O, ClickHouse, the
floating-point orbit propagation, collision probability and genetic
optimisation, and configuration loading.
