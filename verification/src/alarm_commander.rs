use vstd::prelude::*;

verus! {

/// What the alarm commander does about one collision analysis.
pub struct AlarmActions {
    /// Keep the analysis' alert among the active alerts.
    pub record_alert: bool,
    /// Store the alert and push it to the ground station.
    pub persist_and_push_alert: bool,
    /// Ask the optimiser for an avoidance manoeuvre.
    pub request_avoidance: bool,
}

/// Every alerting analysis is kept; a newly seen alert is also stored and
/// pushed; only a level-2 analysis, with telemetry and orbital elements
/// known for both satellites, triggers an automatic avoidance manoeuvre.
pub fn plan_alarm_actions(alert_level: u8, alert_is_new: bool, avoidance_inputs_ready: bool) -> (a:
    AlarmActions)
    ensures
        a.record_alert == (alert_level > 0),
        a.persist_and_push_alert == (alert_level > 0 && alert_is_new),
        a.request_avoidance == (alert_level == 2 && avoidance_inputs_ready),
{
    let alerting = alert_level > 0;
    AlarmActions {
        record_alert: alerting,
        persist_and_push_alert: alerting && alert_is_new,
        request_avoidance: alerting && alert_level == 2 && avoidance_inputs_ready,
    }
}

/// An avoidance manoeuvre can be planned when the latest telemetry and the
/// orbital elements of both satellites are known.
pub fn avoidance_inputs_ready(
    telemetry_1_known: bool,
    elements_1_known: bool,
    telemetry_2_known: bool,
    elements_2_known: bool,
) -> (r: bool)
    ensures
        r == (telemetry_1_known && elements_1_known && telemetry_2_known && elements_2_known),
{
    telemetry_1_known && elements_1_known && telemetry_2_known && elements_2_known
}

/// Whether an alert still needs attention.
#[derive(Debug, Clone, Copy, PartialEq, Eq, Structural)]
pub enum AlertStatus {
    Active,
    Acknowledged,
}

pub open spec fn status_label_spec(s: AlertStatus) -> Seq<char> {
    match s {
        AlertStatus::Active => "active"@,
        AlertStatus::Acknowledged => "acknowledged"@,
    }
}

impl AlertStatus {
    /// The status as the API reports it.
    pub fn label(&self) -> (l: String)
        ensures
            l@ == status_label_spec(*self),
    {
        match self {
            AlertStatus::Active => String::from_str("active"),
            AlertStatus::Acknowledged => String::from_str("acknowledged"),
        }
    }
}

/// Why an alert could not be found.
#[derive(Debug, Clone, Copy, PartialEq, Eq, Structural)]
pub enum AlertQueryError {
    InvalidAlertId,
    AlertNotFound,
}

pub open spec fn query_error_message(e: AlertQueryError) -> Seq<char> {
    match e {
        AlertQueryError::InvalidAlertId => "Invalid alert ID"@,
        AlertQueryError::AlertNotFound => "Alert not found"@,
    }
}

impl AlertQueryError {
    /// The message an API client receives for this error.
    pub fn message(&self) -> (m: String)
        ensures
            m@ == query_error_message(*self),
    {
        match self {
            AlertQueryError::InvalidAlertId => String::from_str("Invalid alert ID"),
            AlertQueryError::AlertNotFound => String::from_str("Alert not found"),
        }
    }
}

/// The alerts raised so far, each under its id with its status, in the
/// order they were first raised.
pub struct AlertRegistry<A> {
    entries: Vec<(u128, AlertStatus, A)>,
}

/// The entries as a map from id to status and alert.
pub open spec fn entries_map<A>(s: Seq<(u128, AlertStatus, A)>) -> Map<u128, (AlertStatus, A)>
    decreases s.len(),
{
    if s.len() == 0 {
        Map::empty()
    } else {
        let last = s.last();
        entries_map(s.drop_last()).insert(last.0, (last.1, last.2))
    }
}

/// No id occurs twice.
pub open spec fn ids_unique<A>(s: Seq<(u128, AlertStatus, A)>) -> bool {
    forall|i: int, j: int| 0 <= i < j < s.len() ==> #[trigger] s[i].0 != #[trigger] s[j].0
}

/// Ids of the active entries, in order.
pub open spec fn active_ids_of<A>(s: Seq<(u128, AlertStatus, A)>) -> Seq<u128>
    decreases s.len(),
{
    if s.len() == 0 {
        Seq::empty()
    } else {
        let rest = active_ids_of(s.drop_last());
        if s.last().1 == AlertStatus::Active {
            rest.push(s.last().0)
        } else {
            rest
        }
    }
}

proof fn lemma_entries_map_index<A>(s: Seq<(u128, AlertStatus, A)>, i: int)
    requires
        ids_unique(s),
        0 <= i < s.len(),
    ensures
        entries_map(s).contains_key(s[i].0),
        entries_map(s)[s[i].0] == (s[i].1, s[i].2),
    decreases s.len(),
{
    if i < s.len() - 1 {
        let t = s.drop_last();
        assert(ids_unique(t)) by {
            assert forall|a: int, b: int| 0 <= a < b < t.len() implies #[trigger] t[a].0
                != #[trigger] t[b].0 by {
                assert(t[a] == s[a] && t[b] == s[b]);
            }
        }
        assert(t[i] == s[i]);
        lemma_entries_map_index(t, i);
        assert(s[i].0 != s.last().0);
    }
}

proof fn lemma_entries_map_domain<A>(s: Seq<(u128, AlertStatus, A)>, id: u128)
    ensures
        entries_map(s).contains_key(id) <==> exists|i: int| 0 <= i < s.len() && #[trigger] s[i].0 == id,
    decreases s.len(),
{
    if s.len() > 0 {
        let t = s.drop_last();
        lemma_entries_map_domain(t, id);
        if exists|i: int| 0 <= i < t.len() && #[trigger] t[i].0 == id {
            let i = choose|i: int| 0 <= i < t.len() && #[trigger] t[i].0 == id;
            assert(s[i] == t[i]);
        }
        if exists|i: int| 0 <= i < s.len() && #[trigger] s[i].0 == id {
            let i = choose|i: int| 0 <= i < s.len() && #[trigger] s[i].0 == id;
            if i < s.len() - 1 {
                assert(t[i] == s[i]);
            }
        }
    }
}

impl<A> AlertRegistry<A> {
    pub closed spec fn entries(&self) -> Seq<(u128, AlertStatus, A)> {
        self.entries@
    }

    /// Each alert id with its status and alert.
    pub open spec fn view_map(&self) -> Map<u128, (AlertStatus, A)> {
        entries_map(self.entries())
    }

    pub open spec fn wf(&self) -> bool {
        ids_unique(self.entries())
    }

    pub fn new() -> (r: Self)
        ensures
            r.wf(),
            r.entries() == Seq::<(u128, AlertStatus, A)>::empty(),
    {
        AlertRegistry { entries: Vec::new() }
    }

    /// Number of alerts known.
    pub fn len(&self) -> (n: usize)
        ensures
            n == self.entries().len(),
    {
        self.entries.len()
    }

    fn position(&self, id: u128) -> (r: Option<usize>)
        requires
            self.wf(),
        ensures
            r matches Some(i) ==> i < self.entries().len() && self.entries()[i as int].0 == id,
            r is None ==> forall|i: int|
                0 <= i < self.entries().len() ==> #[trigger] self.entries()[i].0 != id,
    {
        let mut i: usize = 0;
        while i < self.entries.len()
            invariant
                i <= self.entries@.len(),
                forall|k: int| 0 <= k < i ==> #[trigger] self.entries@[k].0 != id,
            decreases self.entries@.len() - i,
        {
            if self.entries[i].0 == id {
                return Some(i);
            }
            i = i + 1;
        }
        None
    }

    /// Records `alert` as active under `id`, replacing whatever was there,
    /// and tells whether `id` was new.
    pub fn record(&mut self, id: u128, alert: A) -> (is_new: bool)
        requires
            old(self).wf(),
        ensures
            final(self).wf(),
            is_new == !old(self).view_map().contains_key(id),
            final(self).view_map() == old(self).view_map().insert(id, (AlertStatus::Active, alert)),
    {
        proof {
            lemma_entries_map_domain(self.entries@, id);
        }
        match self.position(id) {
            Some(i) => {
                let ghost before = self.entries@;
                self.entries.set(i, (id, AlertStatus::Active, alert));
                proof {
                    let after = self.entries@;
                    assert(ids_unique(after)) by {
                        assert forall|a: int, b: int| 0 <= a < b < after.len() implies #[trigger] after[a].0
                            != #[trigger] after[b].0 by {
                            assert(after[a].0 == before[a].0 && after[b].0 == before[b].0);
                        }
                    }
                    lemma_entries_map_index(before, i as int);
                    assert forall|k: u128| #![trigger entries_map(after).contains_key(k)]
                        entries_map(after).contains_key(k) == entries_map(before).insert(id, (AlertStatus::Active, alert)).contains_key(k) by {
                        lemma_entries_map_domain(after, k);
                        lemma_entries_map_domain(before, k);
                        if exists|j: int| 0 <= j < before.len() && #[trigger] before[j].0 == k {
                            let j = choose|j: int| 0 <= j < before.len() && #[trigger] before[j].0 == k;
                            assert(after[j].0 == k);
                        }
                        if exists|j: int| 0 <= j < after.len() && #[trigger] after[j].0 == k {
                            let j = choose|j: int| 0 <= j < after.len() && #[trigger] after[j].0 == k;
                            assert(before[j].0 == k);
                        }
                    }
                    assert forall|k: u128| entries_map(after).contains_key(k) implies
                        #[trigger] entries_map(after)[k] == entries_map(before).insert(id, (AlertStatus::Active, alert))[k] by {
                        lemma_entries_map_domain(after, k);
                        let j = choose|j: int| 0 <= j < after.len() && #[trigger] after[j].0 == k;
                        lemma_entries_map_index(after, j);
                        if j != i {
                            assert(before[j] == after[j]);
                            lemma_entries_map_index(before, j);
                        }
                    }
                    assert(entries_map(after) =~= entries_map(before).insert(id, (AlertStatus::Active, alert)));
                }
                false
            },
            None => {
                let ghost before = self.entries@;
                self.entries.push((id, AlertStatus::Active, alert));
                proof {
                    let after = self.entries@;
                    assert(after.drop_last() =~= before);
                    assert(ids_unique(after)) by {
                        assert forall|a: int, b: int| 0 <= a < b < after.len() implies #[trigger] after[a].0
                            != #[trigger] after[b].0 by {
                            if b < after.len() - 1 {
                                assert(after[a] == before[a] && after[b] == before[b]);
                            } else {
                                assert(after[a] == before[a]);
                            }
                        }
                    }
                }
                true
            },
        }
    }

    /// The status and alert recorded under `id`.
    pub fn get(&self, id: u128) -> (r: Option<&(u128, AlertStatus, A)>)
        requires
            self.wf(),
        ensures
            r is None <==> !self.view_map().contains_key(id),
            r matches Some(e) ==> e.0 == id && self.view_map()[id] == (e.1, e.2),
    {
        proof {
            lemma_entries_map_domain(self.entries@, id);
        }
        match self.position(id) {
            Some(i) => {
                proof {
                    lemma_entries_map_index(self.entries@, i as int);
                }
                Some(&self.entries[i])
            },
            None => None,
        }
    }

    /// Marks the alert under `id` acknowledged; fails when there is none.
    pub fn acknowledge(&mut self, id: u128) -> (r: Result<(), AlertQueryError>)
        requires
            old(self).wf(),
        ensures
            final(self).wf(),
            r is Err <==> !old(self).view_map().contains_key(id),
            r matches Err(e) ==> e == AlertQueryError::AlertNotFound && final(self).view_map()
                == old(self).view_map(),
            r is Ok ==> final(self).view_map() == old(self).view_map().insert(
                id,
                (AlertStatus::Acknowledged, old(self).view_map()[id].1),
            ),
            r is Ok ==> status_label_spec(final(self).view_map()[id].0) == "acknowledged"@,
    {
        proof {
            lemma_entries_map_domain(self.entries@, id);
        }
        match self.position(id) {
            Some(i) => {
                let ghost before = self.entries@;
                proof {
                    lemma_entries_map_index(before, i as int);
                }
                let entry = self.entries.remove(i);
                let (eid, _status, alert) = entry;
                self.entries.insert(i, (eid, AlertStatus::Acknowledged, alert));
                proof {
                    let after = self.entries@;
                    assert(after.len() == before.len());
                    assert forall|j: int| 0 <= j < after.len() && j != i implies #[trigger] after[j] == before[j] by {
                        if j < i {
                            assert(after[j] == before.remove(i as int)[j]);
                        } else {
                            assert(after[j] == before.remove(i as int)[j - 1]);
                        }
                    }
                    assert(after[i as int] == (id, AlertStatus::Acknowledged, before[i as int].2));
                    assert(ids_unique(after)) by {
                        assert forall|a: int, b: int| 0 <= a < b < after.len() implies #[trigger] after[a].0
                            != #[trigger] after[b].0 by {
                            assert(after[a].0 == before[a].0 && after[b].0 == before[b].0);
                        }
                    }
                    let target = entries_map(before).insert(id, (AlertStatus::Acknowledged, before[i as int].2));
                    assert forall|k: u128| #![trigger entries_map(after).contains_key(k)]
                        entries_map(after).contains_key(k) == target.contains_key(k) by {
                        lemma_entries_map_domain(after, k);
                        lemma_entries_map_domain(before, k);
                        if exists|j: int| 0 <= j < before.len() && #[trigger] before[j].0 == k {
                            let j = choose|j: int| 0 <= j < before.len() && #[trigger] before[j].0 == k;
                            assert(after[j].0 == k);
                        }
                        if exists|j: int| 0 <= j < after.len() && #[trigger] after[j].0 == k {
                            let j = choose|j: int| 0 <= j < after.len() && #[trigger] after[j].0 == k;
                            assert(before[j].0 == k);
                        }
                    }
                    assert forall|k: u128| entries_map(after).contains_key(k) implies
                        #[trigger] entries_map(after)[k] == target[k] by {
                        lemma_entries_map_domain(after, k);
                        let j = choose|j: int| 0 <= j < after.len() && #[trigger] after[j].0 == k;
                        lemma_entries_map_index(after, j);
                        if j != i {
                            lemma_entries_map_index(before, j);
                        }
                    }
                    assert(entries_map(after) =~= target);
                }
                Ok(())
            },
            None => Err(AlertQueryError::AlertNotFound),
        }
    }

    /// Ids of the active alerts, in the order they were first raised.
    pub fn active_ids(&self) -> (ids: Vec<u128>)
        ensures
            ids@ == active_ids_of(self.entries()),
    {
        let mut ids: Vec<u128> = Vec::new();
        let mut i: usize = 0;
        while i < self.entries.len()
            invariant
                i <= self.entries@.len(),
                ids@ == active_ids_of(self.entries@.take(i as int)),
            decreases self.entries@.len() - i,
        {
            assert(self.entries@.take(i + 1).drop_last() =~= self.entries@.take(i as int));
            if self.entries[i].1 == AlertStatus::Active {
                ids.push(self.entries[i].0);
            }
            i = i + 1;
        }
        assert(self.entries@.take(self.entries@.len() as int) =~= self.entries@);
        ids
    }
}

/// An alert is listed as active exactly when it is recorded and has not
/// been acknowledged: acknowledging removes it from the active list, and a
/// recorded alert is listed until then.
pub proof fn law_active_listing<A>(s: Seq<(u128, AlertStatus, A)>, id: u128)
    requires
        ids_unique(s),
    ensures
        active_ids_of(s).contains(id) <==> (entries_map(s).contains_key(id) && entries_map(
            s,
        )[id].0 == AlertStatus::Active),
    decreases s.len(),
{
    if s.len() > 0 {
        let t = s.drop_last();
        assert(ids_unique(t)) by {
            assert forall|a: int, b: int| 0 <= a < b < t.len() implies #[trigger] t[a].0
                != #[trigger] t[b].0 by {
                assert(t[a] == s[a] && t[b] == s[b]);
            }
        }
        law_active_listing(t, id);
        let rest = active_ids_of(t);
        let last = s.last();
        if last.0 == id {
            lemma_entries_map_domain(t, id);
            assert(!entries_map(t).contains_key(id)) by {
                if entries_map(t).contains_key(id) {
                    let j = choose|j: int| 0 <= j < t.len() && #[trigger] t[j].0 == id;
                    assert(s[j].0 == s[s.len() - 1].0);
                }
            }
            if last.1 == AlertStatus::Active {
                assert(rest.push(id)[rest.len() as int] == id);
            } else {
                assert(!rest.contains(id));
            }
        } else {
            if last.1 == AlertStatus::Active {
                if rest.push(last.0).contains(id) {
                    let k = choose|k: int| 0 <= k < rest.push(last.0).len() && rest.push(last.0)[k] == id;
                    assert(rest[k] == id);
                }
                if rest.contains(id) {
                    let k = choose|k: int| 0 <= k < rest.len() && rest[k] == id;
                    assert(rest.push(last.0)[k] == id);
                }
            }
        }
    }
}

/// The status an API client sees: an active alert is reported as "active",
/// an acknowledged one as "acknowledged", so the two are never confused.
pub proof fn law_status_labels()
    ensures
        status_label_spec(AlertStatus::Active) == "active"@,
        status_label_spec(AlertStatus::Acknowledged) == "acknowledged"@,
        status_label_spec(AlertStatus::Active) != status_label_spec(AlertStatus::Acknowledged),
{
    reveal_strlit("active");
    reveal_strlit("acknowledged");
    assert(status_label_spec(AlertStatus::Active).len() != status_label_spec(
        AlertStatus::Acknowledged,
    ).len());
}

/// The active list names each active alert once: no id is listed twice,
/// and there are as many ids listed as there are active entries.
pub proof fn law_active_ids_no_repeats<A>(s: Seq<(u128, AlertStatus, A)>)
    requires
        ids_unique(s),
    ensures
        forall|i: int, j: int|
            0 <= i < j < active_ids_of(s).len() ==> #[trigger] active_ids_of(s)[i]
                != #[trigger] active_ids_of(s)[j],
        active_ids_of(s).len() == s.filter(
            |e: (u128, AlertStatus, A)| e.1 == AlertStatus::Active,
        ).len(),
    decreases s.len(),
{
    reveal_with_fuel(Seq::<_>::filter, 1);
    if s.len() > 0 {
        let t = s.drop_last();
        assert(ids_unique(t)) by {
            assert forall|a: int, b: int| 0 <= a < b < t.len() implies #[trigger] t[a].0
                != #[trigger] t[b].0 by {
                assert(t[a] == s[a] && t[b] == s[b]);
            }
        }
        law_active_ids_no_repeats(t);
        let rest = active_ids_of(t);
        let last = s.last();
        if last.1 == AlertStatus::Active {
            law_active_listing(t, last.0);
            lemma_entries_map_domain(t, last.0);
            assert(!rest.contains(last.0)) by {
                if entries_map(t).contains_key(last.0) {
                    let j = choose|j: int| 0 <= j < t.len() && #[trigger] t[j].0 == last.0;
                    assert(s[j].0 == s[s.len() - 1].0);
                }
            }
            let full = rest.push(last.0);
            assert forall|i: int, j: int| 0 <= i < j < full.len() implies #[trigger] full[i]
                != #[trigger] full[j] by {
                if j == rest.len() {
                    assert(full[i] == rest[i]);
                } else {
                    assert(full[i] == rest[i] && full[j] == rest[j]);
                }
            }
        }
    }
}

} // verus!
