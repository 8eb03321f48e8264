use satellite_constellation_system::alarm_commander::{
    avoidance_inputs_ready, plan_alarm_actions, AlertQueryError, AlertRegistry, AlertStatus,
};
use satellite_constellation_system::api::{
    acknowledge_alert, alert_id_from_parsed, avoidance_input_error, AvoidanceInputError, alert_levels_by_satellite, find_alert,
    listed_risk_level, max_alert_level, parse_alert_id, satellite_risk_level, AnalysisLevel,
};
use satellite_constellation_system::config::GroundStationConfig;
use satellite_constellation_system::models::CollisionRiskLevel;
use satellite_constellation_system::orbit_optimizer;
use satellite_constellation_system::orbit_optimizer_service::AlertManager;

fn manager() -> AlertManager {
    AlertManager::new(GroundStationConfig {
        alert_url: "http://localhost:8888/ground-station/alert".to_string(),
        maneuver_url: "http://localhost:8888/ground-station/maneuver".to_string(),
        push_timeout_seconds: 5,
    })
}

#[test]
fn level_zero_raises_no_alert() {
    assert!(manager().evaluate_collision(1, 2, 0).is_none());
    assert!(orbit_optimizer::AlertManager::new().evaluate_collision(1, 2, 0).is_none());
}

#[test]
fn level_one_warns_without_manoeuvre() {
    let d = manager().evaluate_collision(1, 2, 1).unwrap();
    assert_eq!((d.satellite_id_1, d.satellite_id_2, d.alert_level), (1, 2, 1));
    assert_eq!(d.status, "active");
    assert!(!d.maneuver_planned);
}

#[test]
fn level_two_plans_manoeuvre() {
    let d = orbit_optimizer::AlertManager::new().evaluate_collision(3, 41, 2).unwrap();
    assert_eq!(d.alert_level, 2);
    assert_eq!(d.status, "active");
    assert!(d.maneuver_planned);
}

#[test]
fn emergency_without_alert_is_level_two() {
    let d = manager().compute_emergency_avoidance(1, 2, 0);
    assert_eq!(d.alert_level, 2);
    assert!(d.maneuver_planned);
    assert_eq!(d.status, "active");
    let d = manager().compute_emergency_avoidance(1, 2, 1);
    assert_eq!(d.alert_level, 1);
    assert!(!d.maneuver_planned);
}

#[test]
fn manager_keeps_ground_station_endpoints() {
    let m = manager();
    assert_eq!(m.alert_url(), "http://localhost:8888/ground-station/alert");
    assert_eq!(m.maneuver_url(), "http://localhost:8888/ground-station/maneuver");
    assert_eq!(m.push_timeout_seconds(), 5);
}

#[test]
fn only_level_two_requests_avoidance() {
    let a = plan_alarm_actions(2, true, true);
    assert!(a.record_alert && a.persist_and_push_alert && a.request_avoidance);
    let a = plan_alarm_actions(2, false, false);
    assert!(a.record_alert && !a.persist_and_push_alert && !a.request_avoidance);
    let a = plan_alarm_actions(1, true, true);
    assert!(a.record_alert && a.persist_and_push_alert && !a.request_avoidance);
    let a = plan_alarm_actions(0, true, true);
    assert!(!a.record_alert && !a.persist_and_push_alert && !a.request_avoidance);
    assert!(avoidance_inputs_ready(true, true, true, true));
    assert!(!avoidance_inputs_ready(true, true, false, true));
}

#[test]
fn alert_ids_parse_as_uuids() {
    let id = parse_alert_id("550e8400-e29b-41d4-a716-446655440000").unwrap();
    assert_eq!(id, 0x550e8400e29b41d4a716446655440000u128);
    assert_eq!(parse_alert_id("550e8400e29b41d4a716446655440000"), Ok(id));
    assert_eq!(parse_alert_id("not-a-uuid"), Err(AlertQueryError::InvalidAlertId));
    assert_eq!(parse_alert_id(""), Err(AlertQueryError::InvalidAlertId));
    assert_eq!(alert_id_from_parsed(Some(7)), Ok(7));
    assert_eq!(alert_id_from_parsed(None), Err(AlertQueryError::InvalidAlertId));
    assert_eq!(AlertQueryError::InvalidAlertId.message(), "Invalid alert ID");
    assert_eq!(AlertQueryError::AlertNotFound.message(), "Alert not found");
}

#[test]
fn registry_records_finds_and_acknowledges() {
    let mut r: AlertRegistry<&str> = AlertRegistry::new();
    let a = 0x550e8400e29b41d4a716446655440000u128;
    let b = 0x0000000000000000000000000000002au128;
    assert!(r.record(a, "alpha"));
    assert!(r.record(b, "beta"));
    assert!(!r.record(a, "alpha2"));
    assert_eq!(r.len(), 2);
    assert_eq!(r.active_ids(), vec![a, b]);
    let e = find_alert(&r, "550e8400-e29b-41d4-a716-446655440000").unwrap();
    assert_eq!((e.0, e.1, e.2), (a, AlertStatus::Active, "alpha2"));
    assert_eq!(
        acknowledge_alert(&mut r, "550e8400-e29b-41d4-a716-446655440000"),
        Ok(())
    );
    assert_eq!(r.active_ids(), vec![b]);
    assert_eq!(r.get(a).unwrap().1, AlertStatus::Acknowledged);
    assert_eq!(
        acknowledge_alert(&mut r, "00000000-0000-0000-0000-000000000001"),
        Err(AlertQueryError::AlertNotFound)
    );
    assert_eq!(acknowledge_alert(&mut r, "xyz"), Err(AlertQueryError::InvalidAlertId));
    assert!(matches!(
        find_alert(&r, "00000000-0000-0000-0000-000000000001"),
        Err(AlertQueryError::AlertNotFound)
    ));
    // Re-raising an acknowledged alert makes it active again.
    assert!(!r.record(a, "alpha3"));
    assert_eq!(r.active_ids(), vec![a, b]);
}

fn analyses() -> Vec<AnalysisLevel> {
    vec![
        AnalysisLevel { satellite_id_1: 1, satellite_id_2: 2, alert_level: 1 },
        AnalysisLevel { satellite_id_1: 2, satellite_id_2: 3, alert_level: 2 },
        AnalysisLevel { satellite_id_1: 4, satellite_id_2: 5, alert_level: 0 },
        AnalysisLevel { satellite_id_1: 1, satellite_id_2: 6, alert_level: 1 },
    ]
}

#[test]
fn highest_alert_level_per_satellite() {
    let a = analyses();
    assert_eq!(max_alert_level(&a, 1), 1);
    assert_eq!(max_alert_level(&a, 2), 2);
    assert_eq!(max_alert_level(&a, 3), 2);
    assert_eq!(max_alert_level(&a, 4), 0);
    assert_eq!(max_alert_level(&a, 9), 0);
    let levels = alert_levels_by_satellite(&a);
    assert_eq!(levels.get(&1), Some(&1));
    assert_eq!(levels.get(&2), Some(&2));
    assert_eq!(levels.get(&3), Some(&2));
    assert_eq!(levels.get(&6), Some(&1));
    assert_eq!(levels.get(&4), None);
    assert_eq!(levels.len(), 4);
}

#[test]
fn listing_and_detail_risk_agree() {
    let a = analyses();
    let levels = alert_levels_by_satellite(&a);
    for sat in 0..10u16 {
        assert_eq!(listed_risk_level(&levels, sat), satellite_risk_level(&a, sat));
    }
    assert_eq!(satellite_risk_level(&a, 2), CollisionRiskLevel::Danger);
    assert_eq!(satellite_risk_level(&a, 6), CollisionRiskLevel::Warning);
    assert_eq!(satellite_risk_level(&a, 5), CollisionRiskLevel::Safe);
}

#[test]
fn avoidance_inputs_reported_in_order() {
    assert_eq!(avoidance_input_error(true, true, true, true), None);
    assert_eq!(
        avoidance_input_error(false, false, false, false),
        Some(AvoidanceInputError::Satellite1TelemetryMissing)
    );
    assert_eq!(
        avoidance_input_error(true, false, false, true),
        Some(AvoidanceInputError::Satellite2TelemetryMissing)
    );
    assert_eq!(
        avoidance_input_error(true, true, false, false),
        Some(AvoidanceInputError::Satellite1ElementsMissing)
    );
    assert_eq!(
        avoidance_input_error(true, true, true, false),
        Some(AvoidanceInputError::Satellite2ElementsMissing)
    );
    assert_eq!(
        AvoidanceInputError::Satellite1TelemetryMissing.message(),
        "Satellite 1 telemetry not found"
    );
    assert_eq!(AvoidanceInputError::Satellite2ElementsMissing.message(), "Satellite 2 TLE not found");
}
