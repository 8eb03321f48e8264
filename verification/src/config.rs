use vstd::prelude::*;

verus! {

/// Where alerts and manoeuvres are pushed, and how long a push may take.
#[derive(Debug, Clone)]
pub struct GroundStationConfig {
    pub alert_url: String,
    pub maneuver_url: String,
    pub push_timeout_seconds: u64,
}

/// Ports and database coordinates of the backend.
#[derive(Debug, Clone)]
pub struct NetworkConfig {
    pub telemetry_udp_port: u16,
    pub tle_udp_port: u16,
    pub http_port: u16,
    pub clickhouse_url: String,
    pub clickhouse_database: String,
}

/// Capacity of the per-satellite telemetry reorder buffer.
#[derive(Debug, Clone, Copy)]
pub struct ReorderBufferConfig {
    pub max_buffer_size: usize,
}

} // verus!
