use crate::alarm_commander::{AlertQueryError, AlertRegistry, AlertStatus};
use crate::models::{risk_level_for_alert_level, risk_level_spec, CollisionRiskLevel};
use std::collections::HashMap;
use vstd::prelude::*;

verus! {

broadcast use vstd::std_specs::hash::group_hash_axioms;

/// What a uuid string denotes, as its 128-bit value, or nothing when the
/// string is not a uuid.
pub uninterp spec fn uuid_parse(s: Seq<char>) -> Option<u128>;

/// Parses `s` with `uuid::Uuid::parse_str` and takes the uuid's 128-bit
/// value (`Uuid::as_u128`). Claimed: the result is `uuid_parse` of the
/// text, and a uuid is only ever read from 32, 36, 38 or 45 characters
/// (simple, hyphenated, braced and urn forms, all ASCII). Which texts
/// parse, beyond their length, is left unsaid.
#[verifier::external_body]
fn parse_uuid(s: &str) -> (r: Option<u128>)
    ensures
        r == uuid_parse(s@),
        r is Some ==> (s@.len() == 32 || s@.len() == 36 || s@.len() == 38 || s@.len() == 45),
{
    match uuid::Uuid::parse_str(s) {
        Ok(u) => Some(u.as_u128()),
        Err(_) => None,
    }
}

/// An alert id taken from an API path: its uuid value, or
/// `InvalidAlertId` when the text is no uuid.
pub fn alert_id_from_parsed(parsed: Option<u128>) -> (r: Result<u128, AlertQueryError>)
    ensures
        r == (match parsed {
            Some(v) => Ok(v),
            None => Err(AlertQueryError::InvalidAlertId),
        }),
{
    match parsed {
        Some(v) => Ok(v),
        None => Err(AlertQueryError::InvalidAlertId),
    }
}

/// Reads an alert id from API text.
pub fn parse_alert_id(text: &str) -> (r: Result<u128, AlertQueryError>)
    ensures
        r == (match uuid_parse(text@) {
            Some(v) => Ok(v),
            None => Err(AlertQueryError::InvalidAlertId),
        }),
        !(text@.len() == 32 || text@.len() == 36 || text@.len() == 38 || text@.len() == 45) ==> r
            == Err::<u128, AlertQueryError>(AlertQueryError::InvalidAlertId),
{
    alert_id_from_parsed(parse_uuid(text))
}

/// Looks up the alert an API path names: `InvalidAlertId` when the text is
/// no uuid, `AlertNotFound` when no alert has that id.
pub fn find_alert<'a, A>(registry: &'a AlertRegistry<A>, text: &str) -> (r: Result<
    &'a (u128, AlertStatus, A),
    AlertQueryError,
>)
    requires
        registry.wf(),
    ensures
        match uuid_parse(text@) {
            None => r == Err::<&(u128, AlertStatus, A), AlertQueryError>(
                AlertQueryError::InvalidAlertId,
            ),
            Some(id) => if registry.view_map().contains_key(id) {
                r matches Ok(e) && e.0 == id && registry.view_map()[id] == (e.1, e.2)
            } else {
                r == Err::<&(u128, AlertStatus, A), AlertQueryError>(AlertQueryError::AlertNotFound)
            },
        },
{
    let id = match parse_alert_id(text) {
        Ok(id) => id,
        Err(e) => return Err(e),
    };
    match registry.get(id) {
        Some(e) => Ok(e),
        None => Err(AlertQueryError::AlertNotFound),
    }
}

/// Acknowledges the alert an API path names; fails as `find_alert` does.
pub fn acknowledge_alert<A>(registry: &mut AlertRegistry<A>, text: &str) -> (r: Result<
    (),
    AlertQueryError,
>)
    requires
        old(registry).wf(),
    ensures
        final(registry).wf(),
        match uuid_parse(text@) {
            None => r == Err::<(), AlertQueryError>(AlertQueryError::InvalidAlertId)
                && final(registry).view_map() == old(registry).view_map(),
            Some(id) => if old(registry).view_map().contains_key(id) {
                r is Ok && final(registry).view_map() == old(registry).view_map().insert(
                    id,
                    (AlertStatus::Acknowledged, old(registry).view_map()[id].1),
                )
            } else {
                r == Err::<(), AlertQueryError>(AlertQueryError::AlertNotFound)
                    && final(registry).view_map() == old(registry).view_map()
            },
        },
{
    let id = match parse_alert_id(text) {
        Ok(id) => id,
        Err(e) => return Err(e),
    };
    registry.acknowledge(id)
}

/// Which input an avoidance computation lacks.
#[derive(Debug, Clone, Copy, PartialEq, Eq, Structural)]
pub enum AvoidanceInputError {
    Satellite1TelemetryMissing,
    Satellite2TelemetryMissing,
    Satellite1ElementsMissing,
    Satellite2ElementsMissing,
}

pub open spec fn avoidance_error_message(e: AvoidanceInputError) -> Seq<char> {
    match e {
        AvoidanceInputError::Satellite1TelemetryMissing => "Satellite 1 telemetry not found"@,
        AvoidanceInputError::Satellite2TelemetryMissing => "Satellite 2 telemetry not found"@,
        AvoidanceInputError::Satellite1ElementsMissing => "Satellite 1 TLE not found"@,
        AvoidanceInputError::Satellite2ElementsMissing => "Satellite 2 TLE not found"@,
    }
}

impl AvoidanceInputError {
    /// The message an API client receives for this error.
    pub fn message(&self) -> (m: String)
        ensures
            m@ == avoidance_error_message(*self),
    {
        match self {
            AvoidanceInputError::Satellite1TelemetryMissing => String::from_str(
                "Satellite 1 telemetry not found",
            ),
            AvoidanceInputError::Satellite2TelemetryMissing => String::from_str(
                "Satellite 2 telemetry not found",
            ),
            AvoidanceInputError::Satellite1ElementsMissing => String::from_str(
                "Satellite 1 TLE not found",
            ),
            AvoidanceInputError::Satellite2ElementsMissing => String::from_str(
                "Satellite 2 TLE not found",
            ),
        }
    }
}

/// The first missing input of an avoidance computation for an alert's
/// pair, checked in this order: telemetry of satellite 1, telemetry of
/// satellite 2, orbital elements of satellite 1, orbital elements of
/// satellite 2; `None` when all four are known.
pub fn avoidance_input_error(
    telemetry_1_known: bool,
    telemetry_2_known: bool,
    elements_1_known: bool,
    elements_2_known: bool,
) -> (r: Option<AvoidanceInputError>)
    ensures
        r == (if !telemetry_1_known {
            Some(AvoidanceInputError::Satellite1TelemetryMissing)
        } else if !telemetry_2_known {
            Some(AvoidanceInputError::Satellite2TelemetryMissing)
        } else if !elements_1_known {
            Some(AvoidanceInputError::Satellite1ElementsMissing)
        } else if !elements_2_known {
            Some(AvoidanceInputError::Satellite2ElementsMissing)
        } else {
            None
        }),
{
    if !telemetry_1_known {
        Some(AvoidanceInputError::Satellite1TelemetryMissing)
    } else if !telemetry_2_known {
        Some(AvoidanceInputError::Satellite2TelemetryMissing)
    } else if !elements_1_known {
        Some(AvoidanceInputError::Satellite1ElementsMissing)
    } else if !elements_2_known {
        Some(AvoidanceInputError::Satellite2ElementsMissing)
    } else {
        None
    }
}

/// The pair and alert level of one collision analysis.
#[derive(Debug, Clone, Copy)]
pub struct AnalysisLevel {
    pub satellite_id_1: u16,
    pub satellite_id_2: u16,
    pub alert_level: u8,
}

/// The analysis alerts and concerns satellite `sat`.
pub open spec fn alerts_on(a: AnalysisLevel, sat: u16) -> bool {
    a.alert_level > 0 && (a.satellite_id_1 == sat || a.satellite_id_2 == sat)
}

/// Highest alert level among the alerting analyses that involve `sat`,
/// 0 when there is none.
pub open spec fn max_alert_level_spec(s: Seq<AnalysisLevel>, sat: u16) -> u8
    decreases s.len(),
{
    if s.len() == 0 {
        0
    } else {
        let m = max_alert_level_spec(s.drop_last(), sat);
        let a = s.last();
        if alerts_on(a, sat) && a.alert_level > m {
            a.alert_level
        } else {
            m
        }
    }
}

/// Raises the level kept for `sat` in `m` to at least `level`.
pub open spec fn raise_level(m: Map<u16, u8>, sat: u16, level: u8) -> Map<u16, u8> {
    let cur: u8 = if m.contains_key(sat) {
        m[sat]
    } else {
        0
    };
    m.insert(
        sat,
        if level > cur {
            level
        } else {
            cur
        },
    )
}

/// Highest alert level per satellite, built analysis by analysis: each
/// alerting analysis raises the level of both its satellites.
pub open spec fn alert_levels_spec(s: Seq<AnalysisLevel>) -> Map<u16, u8>
    decreases s.len(),
{
    if s.len() == 0 {
        Map::empty()
    } else {
        let m = alert_levels_spec(s.drop_last());
        let a = s.last();
        if a.alert_level > 0 {
            raise_level(raise_level(m, a.satellite_id_1, a.alert_level), a.satellite_id_2, a.alert_level)
        } else {
            m
        }
    }
}

/// The highest alert level of the analyses that involve `sat` (the detail
/// view of one satellite).
pub fn max_alert_level(analyses: &Vec<AnalysisLevel>, sat: u16) -> (level: u8)
    ensures
        level == max_alert_level_spec(analyses@, sat),
{
    let mut level: u8 = 0;
    let mut i: usize = 0;
    while i < analyses.len()
        invariant
            i <= analyses@.len(),
            level == max_alert_level_spec(analyses@.take(i as int), sat),
        decreases analyses@.len() - i,
    {
        assert(analyses@.take(i + 1).drop_last() =~= analyses@.take(i as int));
        let a = analyses[i];
        if a.alert_level > 0 && (a.satellite_id_1 == sat || a.satellite_id_2 == sat)
            && a.alert_level > level {
            level = a.alert_level;
        }
        i = i + 1;
    }
    assert(analyses@.take(analyses@.len() as int) =~= analyses@);
    level
}

/// The highest alert level of every satellite some alerting analysis
/// involves (the listing of all satellites).
pub fn alert_levels_by_satellite(analyses: &Vec<AnalysisLevel>) -> (levels: HashMap<u16, u8>)
    ensures
        levels@ == alert_levels_spec(analyses@),
{
    let mut levels: HashMap<u16, u8> = HashMap::new();
    let mut i: usize = 0;
    while i < analyses.len()
        invariant
            i <= analyses@.len(),
            levels@ == alert_levels_spec(analyses@.take(i as int)),
        decreases analyses@.len() - i,
    {
        assert(analyses@.take(i + 1).drop_last() =~= analyses@.take(i as int));
        let a = analyses[i];
        if a.alert_level > 0 {
            raise_entry(&mut levels, a.satellite_id_1, a.alert_level);
            raise_entry(&mut levels, a.satellite_id_2, a.alert_level);
        }
        i = i + 1;
    }
    assert(analyses@.take(analyses@.len() as int) =~= analyses@);
    levels
}

fn raise_entry(levels: &mut HashMap<u16, u8>, sat: u16, level: u8)
    ensures
        final(levels)@ == raise_level(old(levels)@, sat, level),
{
    let cur: u8 = match levels.get(&sat) {
        Some(v) => *v,
        None => 0,
    };
    let new_level = if level > cur {
        level
    } else {
        cur
    };
    levels.insert(sat, new_level);
}

/// The risk level shown for `sat` in the listing of all satellites.
pub fn listed_risk_level(levels: &HashMap<u16, u8>, sat: u16) -> (r: CollisionRiskLevel)
    ensures
        r == risk_level_spec(
            if levels@.contains_key(sat) {
                levels@[sat]
            } else {
                0
            },
        ),
{
    let level: u8 = match levels.get(&sat) {
        Some(v) => *v,
        None => 0,
    };
    risk_level_for_alert_level(level)
}

/// The risk level shown in the detail view of `sat`.
pub fn satellite_risk_level(analyses: &Vec<AnalysisLevel>, sat: u16) -> (r: CollisionRiskLevel)
    ensures
        r == risk_level_spec(max_alert_level_spec(analyses@, sat)),
{
    risk_level_for_alert_level(max_alert_level(analyses, sat))
}

/// The listing of all satellites and the detail view of one agree: the
/// level kept for a satellite in the per-satellite map is its highest
/// alert level, and a satellite no alerting analysis involves has none.
pub proof fn law_listing_agrees_with_detail(s: Seq<AnalysisLevel>, sat: u16)
    ensures
        (if alert_levels_spec(s).contains_key(sat) {
            alert_levels_spec(s)[sat]
        } else {
            0
        }) == max_alert_level_spec(s, sat),
        alert_levels_spec(s).contains_key(sat) <==> exists|i: int|
            0 <= i < s.len() && alerts_on(#[trigger] s[i], sat),
    decreases s.len(),
{
    if s.len() > 0 {
        let t = s.drop_last();
        law_listing_agrees_with_detail(t, sat);
        if exists|i: int| 0 <= i < t.len() && alerts_on(#[trigger] t[i], sat) {
            let i = choose|i: int| 0 <= i < t.len() && alerts_on(#[trigger] t[i], sat);
            assert(s[i] == t[i]);
        }
        if exists|i: int| 0 <= i < s.len() && alerts_on(#[trigger] s[i], sat) {
            let i = choose|i: int| 0 <= i < s.len() && alerts_on(#[trigger] s[i], sat);
            if i < s.len() - 1 {
                assert(t[i] == s[i]);
            }
        }
    }
}

/// The level kept for a satellite is the highest alert level of the alerting
/// analyses that involve it: it is at least the level of each of them, it is
/// the level of one of them, and it is 0 when there is none. The same holds
/// of the per-satellite map of the listing, which has an entry exactly for
/// the satellites some alerting analysis involves.
pub proof fn law_highest_alert_level(s: Seq<AnalysisLevel>, sat: u16)
    ensures
        forall|i: int|
            0 <= i < s.len() && alerts_on(#[trigger] s[i], sat) ==> max_alert_level_spec(s, sat)
                >= s[i].alert_level,
        (exists|i: int| 0 <= i < s.len() && alerts_on(#[trigger] s[i], sat)) ==> exists|i: int|
            0 <= i < s.len() && alerts_on(#[trigger] s[i], sat) && max_alert_level_spec(s, sat)
                == s[i].alert_level,
        (forall|i: int| 0 <= i < s.len() ==> !alerts_on(#[trigger] s[i], sat))
            ==> max_alert_level_spec(s, sat) == 0,
        forall|i: int|
            0 <= i < s.len() && alerts_on(#[trigger] s[i], sat) ==> alert_levels_spec(s).contains_key(sat)
                && alert_levels_spec(s)[sat] >= s[i].alert_level,
        alert_levels_spec(s).contains_key(sat) ==> exists|i: int|
            0 <= i < s.len() && alerts_on(#[trigger] s[i], sat) && alert_levels_spec(s)[sat]
                == s[i].alert_level,
    decreases s.len(),
{
    law_listing_agrees_with_detail(s, sat);
    if s.len() > 0 {
        let t = s.drop_last();
        law_highest_alert_level(t, sat);
        let m = max_alert_level_spec(t, sat);
        let n = s.len() - 1;
        assert forall|i: int|
            0 <= i < s.len() && alerts_on(#[trigger] s[i], sat) implies max_alert_level_spec(s, sat)
                >= s[i].alert_level by {
            if i < n {
                assert(t[i] == s[i]);
            }
        }
        if alerts_on(s[n], sat) && s[n].alert_level > m {
            assert(max_alert_level_spec(s, sat) == s[n].alert_level);
        } else if exists|i: int| 0 <= i < t.len() && alerts_on(#[trigger] t[i], sat) {
            let i = choose|i: int|
                0 <= i < t.len() && alerts_on(#[trigger] t[i], sat) && m == t[i].alert_level;
            assert(s[i] == t[i]);
        } else {
            assert forall|i: int| 0 <= i < s.len() && alerts_on(#[trigger] s[i], sat) implies false by {
                if i < n {
                    assert(t[i] == s[i]);
                }
            }
        }
    }
}


} // verus!
