use satellite_constellation_system::models::{
    coverage_status, risk_level_for_alert_level, satellite_name, CollisionRiskLevel,
};

#[test]
fn satellite_names_are_zero_padded() {
    assert_eq!(satellite_name(1), "SAT-001");
    assert_eq!(satellite_name(41), "SAT-041");
    assert_eq!(satellite_name(0), "SAT-000");
    assert_eq!(satellite_name(80), "SAT-080");
    assert_eq!(satellite_name(999), "SAT-999");
    assert_eq!(satellite_name(1000), "SAT-1000");
    assert_eq!(satellite_name(65535), "SAT-65535");
}

#[test]
fn distinct_ids_get_distinct_names() {
    let mut names: Vec<String> = (0..200u16).map(satellite_name).collect();
    names.sort();
    names.dedup();
    assert_eq!(names.len(), 200);
}

#[test]
fn risk_levels_follow_alert_levels() {
    assert_eq!(risk_level_for_alert_level(0), CollisionRiskLevel::Safe);
    assert_eq!(risk_level_for_alert_level(1), CollisionRiskLevel::Warning);
    assert_eq!(risk_level_for_alert_level(2), CollisionRiskLevel::Danger);
    assert_eq!(risk_level_for_alert_level(3), CollisionRiskLevel::Safe);
}

#[test]
fn coverage_degrades_with_alerts() {
    assert_eq!(coverage_status(0), "nominal");
    assert_eq!(coverage_status(1), "degraded");
    assert_eq!(coverage_status(4), "degraded");
    assert_eq!(coverage_status(5), "critical");
    assert_eq!(coverage_status(500), "critical");
}
