//! Verified core of the satellite constellation orbit-control and
//! collision-warning backend: telemetry reordering, alert decisions,
//! risk classification, pair scheduling and the integer bookkeeping of
//! the island-model optimiser.

pub mod config;
pub mod udp_receiver;
pub mod models;
pub mod orbit_optimizer_service;
pub mod orbit_optimizer;
pub mod collision_predictor;
pub mod alarm_commander;
pub mod api;
