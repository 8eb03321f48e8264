use crate::orbit_optimizer_service::{
    alert_decision, emergency_alert_decision, is_alert_decision, AlertDecision,
};
use vstd::prelude::*;

verus! {

/// Alert manager of the single-population optimiser; it pushes to the
/// ground station's fixed endpoints and raises the same alerts as the
/// configurable one.
pub struct AlertManager;

impl AlertManager {
    pub fn new() -> (m: Self) {
        AlertManager
    }

    /// The alert raised by an analysis of the pair at the given level, if any.
    pub fn evaluate_collision(&self, satellite_id_1: u16, satellite_id_2: u16, alert_level: u8) -> (r:
        Option<AlertDecision>)
        ensures
            r is None <==> alert_level == 0,
            r matches Some(d) ==> is_alert_decision(d, satellite_id_1, satellite_id_2, alert_level),
    {
        alert_decision(satellite_id_1, satellite_id_2, alert_level)
    }

    /// The alert part of an emergency avoidance for the pair.
    pub fn compute_emergency_avoidance(
        &self,
        satellite_id_1: u16,
        satellite_id_2: u16,
        alert_level: u8,
    ) -> (d: AlertDecision)
        ensures
            alert_level != 0 ==> is_alert_decision(d, satellite_id_1, satellite_id_2, alert_level),
            alert_level == 0 ==> is_alert_decision(d, satellite_id_1, satellite_id_2, 2),
    {
        emergency_alert_decision(satellite_id_1, satellite_id_2, alert_level)
    }
}

} // verus!
