use crate::config::GroundStationConfig;
use vstd::multiset::Multiset;
use vstd::prelude::*;

verus! {

/// The integer part of a collision alert: which pair it concerns, its
/// level, its status and whether an avoidance manoeuvre is planned.
pub struct AlertDecision {
    pub satellite_id_1: u16,
    pub satellite_id_2: u16,
    pub alert_level: u8,
    pub status: String,
    pub maneuver_planned: bool,
}

/// An analysis raises an alert exactly when its level is not zero; the alert
/// is active and plans a manoeuvre exactly at level 2.
pub open spec fn is_alert_decision(
    d: AlertDecision,
    satellite_id_1: u16,
    satellite_id_2: u16,
    alert_level: u8,
) -> bool {
    &&& d.satellite_id_1 == satellite_id_1
    &&& d.satellite_id_2 == satellite_id_2
    &&& d.alert_level == alert_level
    &&& d.status@ == "active"@
    &&& d.maneuver_planned == (alert_level == 2)
}

/// The alert an analysis of the given pair and level raises, if any.
pub fn alert_decision(satellite_id_1: u16, satellite_id_2: u16, alert_level: u8) -> (r: Option<
    AlertDecision,
>)
    ensures
        r is None <==> alert_level == 0,
        r matches Some(d) ==> is_alert_decision(d, satellite_id_1, satellite_id_2, alert_level),
{
    if alert_level == 0 {
        return None;
    }
    Some(
        AlertDecision {
            satellite_id_1,
            satellite_id_2,
            alert_level,
            status: String::from_str("active"),
            maneuver_planned: alert_level == 2,
        },
    )
}

/// The alert behind an emergency avoidance: the analysis' own alert, or,
/// when the analysis raised none, an active level-2 alert with a planned
/// manoeuvre.
pub fn emergency_alert_decision(satellite_id_1: u16, satellite_id_2: u16, alert_level: u8) -> (d:
    AlertDecision)
    ensures
        alert_level != 0 ==> is_alert_decision(d, satellite_id_1, satellite_id_2, alert_level),
        alert_level == 0 ==> is_alert_decision(d, satellite_id_1, satellite_id_2, 2),
{
    match alert_decision(satellite_id_1, satellite_id_2, alert_level) {
        Some(d) => d,
        None => AlertDecision {
            satellite_id_1,
            satellite_id_2,
            alert_level: 2,
            status: String::from_str("active"),
            maneuver_planned: true,
        },
    }
}

/// Raises collision alerts and knows where the ground station takes them.
pub struct AlertManager {
    ground_station: GroundStationConfig,
}

impl AlertManager {
    pub closed spec fn config(&self) -> GroundStationConfig {
        self.ground_station
    }

    pub fn new(config: GroundStationConfig) -> (m: Self)
        ensures
            m.config() == config,
    {
        Self { ground_station: config }
    }

    /// The alert raised by an analysis of the pair at the given level, if any.
    pub fn evaluate_collision(&self, satellite_id_1: u16, satellite_id_2: u16, alert_level: u8) -> (r:
        Option<AlertDecision>)
        ensures
            r is None <==> alert_level == 0,
            r matches Some(d) ==> is_alert_decision(d, satellite_id_1, satellite_id_2, alert_level),
    {
        alert_decision(satellite_id_1, satellite_id_2, alert_level)
    }

    /// The alert part of an emergency avoidance for the pair.
    pub fn compute_emergency_avoidance(
        &self,
        satellite_id_1: u16,
        satellite_id_2: u16,
        alert_level: u8,
    ) -> (d: AlertDecision)
        ensures
            alert_level != 0 ==> is_alert_decision(d, satellite_id_1, satellite_id_2, alert_level),
            alert_level == 0 ==> is_alert_decision(d, satellite_id_1, satellite_id_2, 2),
    {
        emergency_alert_decision(satellite_id_1, satellite_id_2, alert_level)
    }

    /// Where alerts are pushed.
    pub fn alert_url(&self) -> (u: &str)
        ensures
            u@ == self.config().alert_url@,
    {
        self.ground_station.alert_url.as_str()
    }

    /// Where manoeuvres are pushed.
    pub fn maneuver_url(&self) -> (u: &str)
        ensures
            u@ == self.config().maneuver_url@,
    {
        self.ground_station.maneuver_url.as_str()
    }

    /// How long a push may take.
    pub fn push_timeout_seconds(&self) -> (t: u64)
        ensures
            t == self.config().push_timeout_seconds,
    {
        self.ground_station.push_timeout_seconds
    }
}

/// Size of each island's population: the population shared out evenly
/// between the islands, but never below one.
pub open spec fn island_population_size_spec(population_size: usize, num_islands: usize) -> int {
    if population_size / num_islands >= 1 {
        (population_size / num_islands) as int
    } else {
        1
    }
}

pub fn island_population_size(population_size: usize, num_islands: usize) -> (n: usize)
    requires
        num_islands > 0,
    ensures
        n == island_population_size_spec(population_size, num_islands),
        n >= 1,
{
    let q = population_size / num_islands;
    if q >= 1 {
        q
    } else {
        1
    }
}

/// Islands exchange migrants after every `migration_interval`-th
/// generation, when there is more than one island.
pub fn is_migration_generation(generation: usize, migration_interval: usize, num_islands: usize) -> (b:
    bool)
    requires
        migration_interval > 0,
        generation < usize::MAX,
    ensures
        b == ((generation + 1) % (migration_interval as int) == 0 && num_islands > 1),
{
    (generation + 1) % migration_interval == 0 && num_islands > 1
}

/// One ring migration: the best `count` individuals of island `source`
/// replace the worst `count` of island `target`.
pub struct MigrationStep {
    pub source: usize,
    pub target: usize,
    pub count: usize,
}

pub open spec fn min_usize(a: usize, b: usize) -> usize {
    if a <= b {
        a
    } else {
        b
    }
}

/// The step of a ring migration that leaves island `i`.
pub open spec fn is_migration_step(
    step: MigrationStep,
    i: int,
    migration_count: usize,
    sizes: Seq<usize>,
) -> bool {
    let target = (i + 1) % (sizes.len() as int);
    &&& step.source == i
    &&& step.target == target
    &&& step.count == min_usize(min_usize(migration_count, sizes[i]), sizes[target])
}

/// Ring migration between islands of the given population sizes: island
/// `i` sends up to `migration_count` of its best individuals to island
/// `(i + 1) % n`, no more than either population holds.
pub fn migration_plan(migration_count: usize, population_sizes: &Vec<usize>) -> (plan: Vec<
    MigrationStep,
>)
    ensures
        plan@.len() == population_sizes@.len(),
        forall|i: int|
            0 <= i < plan@.len() ==> is_migration_step(
                #[trigger] plan@[i],
                i,
                migration_count,
                population_sizes@,
            ),
{
    let n = population_sizes.len();
    let mut plan: Vec<MigrationStep> = Vec::new();
    let mut i: usize = 0;
    while i < n
        invariant
            n == population_sizes@.len(),
            i <= n,
            plan@.len() == i,
            forall|k: int|
                0 <= k < i ==> is_migration_step(
                    #[trigger] plan@[k],
                    k,
                    migration_count,
                    population_sizes@,
                ),
        decreases n - i,
    {
        let target = (i + 1) % n;
        let emigrants = if migration_count <= population_sizes[i] {
            migration_count
        } else {
            population_sizes[i]
        };
        let count = if emigrants <= population_sizes[target] {
            emigrants
        } else {
            population_sizes[target]
        };
        plan.push(MigrationStep { source: i, target, count });
        i = i + 1;
    }
    plan
}

/// The island before island `t` on a ring of `n` islands.
pub open spec fn ring_predecessor(t: int, n: int) -> int {
    if t == 0 {
        n - 1
    } else {
        t - 1
    }
}

/// Ring migration reaches every island from exactly one other: island `t`
/// is the target of its predecessor's step, and no two steps share a target.
pub proof fn law_migration_is_a_ring(migration_count: usize, sizes: Seq<usize>, plan: Seq<MigrationStep>)
    requires
        plan.len() == sizes.len(),
        forall|i: int|
            0 <= i < plan.len() ==> is_migration_step(#[trigger] plan[i], i, migration_count, sizes),
    ensures
        forall|t: int|
            0 <= t < plan.len() ==> #[trigger] plan[ring_predecessor(t, plan.len() as int)].target
                == t,
        forall|i: int, j: int|
            0 <= i < j < plan.len() ==> #[trigger] plan[i].target != #[trigger] plan[j].target,
{
    let n = plan.len() as int;
    assert forall|t: int| 0 <= t < n implies #[trigger] plan[ring_predecessor(t, n)].target == t by {
        let p = ring_predecessor(t, n);
        assert(is_migration_step(plan[p], p, migration_count, sizes));
        if t == 0 {
            assert((n - 1 + 1) % n == 0) by (nonlinear_arith)
                requires
                    n > 0,
            ;
        } else {
            assert((t - 1 + 1) % n == t) by (nonlinear_arith)
                requires
                    0 <= t < n,
            ;
        }
    }
    assert forall|i: int, j: int| 0 <= i < j < n implies #[trigger] plan[i].target
        != #[trigger] plan[j].target by {
        assert(is_migration_step(plan[i], i, migration_count, sizes));
        assert(is_migration_step(plan[j], j, migration_count, sizes));
        assert((i + 1) % n == i + 1) by (nonlinear_arith)
            requires
                0 <= i + 1 < n,
        ;
        if j + 1 < n {
            assert((j + 1) % n == j + 1) by (nonlinear_arith)
                requires
                    0 <= j + 1 < n,
            ;
        } else {
            assert((j + 1) % n == 0) by (nonlinear_arith)
                requires
                    j + 1 == n,
                    n > 0,
            ;
        }
    }
}

/// Satellites are grouped sixteen to an orbital plane.
pub open spec fn plane_of_spec(satellite_id: u16) -> u16 {
    (satellite_id / 16) as u16
}

pub fn plane_of(satellite_id: u16) -> (p: u16)
    ensures
        p == plane_of_spec(satellite_id),
{
    satellite_id / 16
}

/// Every satellite is optimised in exactly one plane: a satellite of `ids`
/// is among the members gathered for plane `p` exactly when it flies in `p`.
pub proof fn law_planes_partition_satellites(ids: Seq<u16>, i: int, p: u16)
    requires
        0 <= i < ids.len(),
    ensures
        ids.filter(|x: u16| plane_of_spec(x) == p).contains(ids[i]) <==> plane_of_spec(ids[i]) == p,
{
    let pred = |x: u16| plane_of_spec(x) == p;
    if pred(ids[i]) {
        ids.lemma_filter_contains(pred, i);
    }
    if ids.filter(pred).contains(ids[i]) {
        let k = choose|k: int| 0 <= k < ids.filter(pred).len() && ids.filter(pred)[k] == ids[i];
        ids.lemma_filter_pred(pred, k);
    }
}

/// The members of each of `planes`, gathered plane after plane.
pub open spec fn gather_planes(ids: Seq<u16>, planes: Seq<u16>) -> Seq<u16>
    decreases planes.len(),
{
    if planes.len() == 0 {
        Seq::empty()
    } else {
        gather_planes(ids, planes.drop_last()) + ids.filter(
            |x: u16| plane_of_spec(x) == planes.last(),
        )
    }
}

/// The members of one plane hold each satellite of that plane as often as
/// `ids` does, and none other.
proof fn lemma_filter_count(ids: Seq<u16>, p: u16, x: u16)
    ensures
        ids.filter(|y: u16| plane_of_spec(y) == p).to_multiset().count(x) == (if plane_of_spec(x)
            == p {
            ids.to_multiset().count(x)
        } else {
            0
        }),
    decreases ids.len(),
{
    broadcast use vstd::seq_lib::group_to_multiset_ensures;

    let pred = |y: u16| plane_of_spec(y) == p;
    reveal_with_fuel(Seq::<_>::filter, 1);
    if ids.len() == 0 {
        assert(ids.filter(pred) =~= Seq::<u16>::empty());
        assert(ids.to_multiset() =~= Multiset::empty());
    } else {
        let t = ids.drop_last();
        lemma_filter_count(t, p, x);
        assert(t.push(ids.last()) =~= ids);
        let f0 = t.filter(pred);
        assert(ids.filter(pred) == (if pred(ids.last()) {
            f0.push(ids.last())
        } else {
            f0
        }));
    }
}

proof fn lemma_gather_count(ids: Seq<u16>, planes: Seq<u16>, x: u16)
    requires
        strictly_ascending(planes),
    ensures
        gather_planes(ids, planes).to_multiset().count(x) == (if planes.contains(plane_of_spec(x)) {
            ids.to_multiset().count(x)
        } else {
            0
        }),
    decreases planes.len(),
{
    broadcast use vstd::seq_lib::group_to_multiset_ensures;

    if planes.len() == 0 {
        assert(gather_planes(ids, planes).to_multiset() =~= Multiset::empty());
    } else {
        let pl = planes.drop_last();
        let last = planes.last();
        assert(strictly_ascending(pl)) by {
            assert forall|i: int, j: int| 0 <= i < j < pl.len() implies #[trigger] pl[i]
                < #[trigger] pl[j] by {
                assert(pl[i] == planes[i] && pl[j] == planes[j]);
            }
        }
        lemma_gather_count(ids, pl, x);
        lemma_filter_count(ids, last, x);
        let f = ids.filter(|y: u16| plane_of_spec(y) == last);
        vstd::seq_lib::lemma_multiset_commutative(gather_planes(ids, pl), f);
        let q = plane_of_spec(x);
        if pl.contains(q) {
            let k = choose|k: int| 0 <= k < pl.len() && pl[k] == q;
            assert(planes[k] == q);
            assert(planes[k] < planes[planes.len() - 1]);
        }
        if planes.contains(q) && q != last {
            let k = choose|k: int| 0 <= k < planes.len() && planes[k] == q;
            assert(pl[k] == q);
        }
        if q == last {
            assert(planes[planes.len() - 1] == q);
        }
        if pl.contains(q) {
            let k = choose|k: int| 0 <= k < pl.len() && pl[k] == q;
            assert(planes[k] == q);
        }
    }
}

/// Gathering the members of every plane that `ids` flies in, plane by
/// plane, yields exactly the satellites of `ids`, each as often as it
/// occurs there: every satellite gets one station-keeping plan.
pub proof fn law_planes_cover_satellites_once(ids: Seq<u16>, planes: Seq<u16>)
    requires
        strictly_ascending(planes),
        forall|p: u16|
            planes.contains(p) <==> exists|i: int|
                0 <= i < ids.len() && plane_of_spec(#[trigger] ids[i]) == p,
    ensures
        gather_planes(ids, planes).to_multiset() =~= ids.to_multiset(),
{
    broadcast use vstd::seq_lib::group_to_multiset_ensures;

    assert forall|x: u16| #[trigger] gather_planes(ids, planes).to_multiset().count(x)
        == ids.to_multiset().count(x) by {
        lemma_gather_count(ids, planes, x);
        if ids.to_multiset().count(x) > 0 {
            assert(ids.contains(x));
            let i = choose|i: int| 0 <= i < ids.len() && ids[i] == x;
            assert(plane_of_spec(ids[i]) == plane_of_spec(x));
            assert(planes.contains(plane_of_spec(x)));
        }
    }
}

pub open spec fn ascending(s: Seq<u16>) -> bool {
    forall|i: int, j: int| 0 <= i <= j < s.len() ==> #[trigger] s[i] <= #[trigger] s[j]
}

pub open spec fn strictly_ascending(s: Seq<u16>) -> bool {
    forall|i: int, j: int| 0 <= i < j < s.len() ==> #[trigger] s[i] < #[trigger] s[j]
}

/// Puts `x` into the ascending vector `v` after every element not above it.
fn insert_ascending(v: &mut Vec<u16>, x: u16)
    requires
        ascending(old(v)@),
    ensures
        ascending(final(v)@),
        final(v)@.to_multiset() == old(v)@.to_multiset().insert(x),
        final(v)@.len() == old(v)@.len() + 1,
        forall|y: u16| final(v)@.contains(y) <==> (old(v)@.contains(y) || y == x),
{
    broadcast use vstd::seq_lib::group_to_multiset_ensures;

    let mut k = v.len();
    while k > 0 && v[k - 1] > x
        invariant
            k <= v@.len(),
            forall|i: int| k <= i < v@.len() ==> #[trigger] v@[i] > x,
        decreases k,
    {
        k = k - 1;
    }
    let ghost s = v@;
    v.insert(k, x);
    proof {
        let r = v@;
        assert(r[k as int] == x);
        assert forall|i: int, j: int| 0 <= i <= j < r.len() implies #[trigger] r[i] <= #[trigger] r[j] by {
            if i < k && j < k {
                assert(r[i] == s[i] && r[j] == s[j]);
            } else if i < k && j == k {
                assert(r[i] == s[i]);
                assert(s[i] <= s[k - 1]);
            } else if i < k {
                assert(r[i] == s[i] && r[j] == s[j - 1]);
            } else if i == k && j > k {
                assert(r[j] == s[j - 1]);
            } else if i > k {
                assert(r[i] == s[i - 1] && r[j] == s[j - 1]);
            }
        }
        assert forall|y: u16| r.contains(y) <==> (s.contains(y) || y == x) by {
            if r.contains(y) {
                let i = choose|i: int| 0 <= i < r.len() && r[i] == y;
                if i < k {
                    assert(s[i] == y);
                } else if i > k {
                    assert(s[i - 1] == y);
                }
            }
            if s.contains(y) {
                let i = choose|i: int| 0 <= i < s.len() && s[i] == y;
                if i < k {
                    assert(r[i] == y);
                } else {
                    assert(r[i + 1] == y);
                }
            }
        }
    }
}

/// The satellites of `ids` that fly in `plane`, in ascending id order.
pub fn plane_members(ids: &Vec<u16>, plane: u16) -> (m: Vec<u16>)
    ensures
        ascending(m@),
        m@.to_multiset() == ids@.filter(|x: u16| plane_of_spec(x) == plane).to_multiset(),
{
    let ghost pred = |x: u16| plane_of_spec(x) == plane;
    let mut m: Vec<u16> = Vec::new();
    let mut i: usize = 0;
    proof {
        reveal_with_fuel(Seq::<_>::filter, 1);
    }
    assert(ids@.take(0).filter(pred) =~= Seq::<u16>::empty());
    while i < ids.len()
        invariant
            i <= ids@.len(),
            pred == (|x: u16| plane_of_spec(x) == plane),
            ascending(m@),
            m@.to_multiset() == ids@.take(i as int).filter(pred).to_multiset(),
        decreases ids@.len() - i,
    {
        broadcast use vstd::seq_lib::group_to_multiset_ensures;

        let x = ids[i];
        let ghost f0 = ids@.take(i as int).filter(pred);
        proof {
            reveal_with_fuel(Seq::<_>::filter, 1);
        }
        assert(ids@.take(i + 1).drop_last() =~= ids@.take(i as int));
        assert(ids@.take(i + 1).last() == x);
        assert(ids@.take(i + 1).filter(pred) == (if pred(x) {
            f0.push(x)
        } else {
            f0
        }));
        if plane_of(x) == plane {
            insert_ascending(&mut m, x);
            assert(f0.push(x).to_multiset() =~= f0.to_multiset().insert(x));
        }
        i = i + 1;
    }
    assert(ids@.take(ids@.len() as int) =~= ids@);
    m
}

/// The planes flown by the satellites of `ids`, each once, in ascending order.
pub fn distinct_planes(ids: &Vec<u16>) -> (planes: Vec<u16>)
    ensures
        strictly_ascending(planes@),
        forall|p: u16|
            planes@.contains(p) <==> exists|i: int|
                0 <= i < ids@.len() && plane_of_spec(#[trigger] ids@[i]) == p,
{
    let mut planes: Vec<u16> = Vec::new();
    let mut i: usize = 0;
    while i < ids.len()
        invariant
            i <= ids@.len(),
            strictly_ascending(planes@),
            forall|p: u16|
                planes@.contains(p) <==> exists|k: int|
                    0 <= k < i && plane_of_spec(#[trigger] ids@[k]) == p,
        decreases ids@.len() - i,
    {
        let p = plane_of(ids[i]);
        let mut present = false;
        let mut j: usize = 0;
        while j < planes.len()
            invariant
                j <= planes@.len(),
                present <==> planes@.take(j as int).contains(p),
            decreases planes@.len() - j,
        {
            let ghost t0 = planes@.take(j as int);
            let ghost t1 = planes@.take(j + 1);
            assert(t1 =~= t0.push(planes@[j as int]));
            proof {
                if t1.contains(p) && planes@[j as int] != p {
                    let k = choose|k: int| 0 <= k < t1.len() && t1[k] == p;
                    assert(t0[k] == p);
                }
                if t0.contains(p) {
                    let k = choose|k: int| 0 <= k < t0.len() && t0[k] == p;
                    assert(t1[k] == p);
                }
                if planes@[j as int] == p {
                    assert(t1[j as int] == p);
                }
            }
            if planes[j] == p {
                present = true;
            }
            j = j + 1;
        }
        assert(planes@.take(planes@.len() as int) =~= planes@);
        let ghost before = planes@;
        if !present {
            insert_ascending(&mut planes, p);
            proof {
                assert forall|a: int, b: int| 0 <= a < b < planes@.len() implies #[trigger] planes@[a]
                    < #[trigger] planes@[b] by {
                    assert(planes@[a] <= planes@[b]);
                    if planes@[a] == planes@[b] {
                        // Two equal entries would mean two copies of one plane.
                        assert(planes@.to_multiset().count(planes@[a]) >= 2) by {
                            lemma_two_copies(planes@, a, b);
                        }
                        assert(before.to_multiset().count(planes@[a]) <= 1) by {
                            lemma_strict_single(before, planes@[a]);
                        }
                        if planes@[a] != p {
                            assert(planes@.to_multiset().count(planes@[a]) == before.to_multiset().count(planes@[a]));
                        } else {
                            assert(!before.contains(p));
                            assert(before.to_multiset().count(p) == 0) by {
                                broadcast use vstd::seq_lib::group_to_multiset_ensures;
                            }
                        }
                    }
                }
            }
        }
        proof {
            assert forall|q: u16| planes@.contains(q) <==> exists|k: int|
                0 <= k < i + 1 && plane_of_spec(#[trigger] ids@[k]) == q by {
                if q == p {
                    assert(plane_of_spec(ids@[i as int]) == q);
                }
                if exists|k: int| 0 <= k < i + 1 && plane_of_spec(#[trigger] ids@[k]) == q {
                    let k = choose|k: int| 0 <= k < i + 1 && plane_of_spec(#[trigger] ids@[k]) == q;
                    if k < i {
                        assert(exists|k2: int| 0 <= k2 < i && plane_of_spec(#[trigger] ids@[k2]) == q);
                    }
                }
            }
        }
        i = i + 1;
    }
    planes
}

/// Two positions holding one value give that value at least two copies.
proof fn lemma_two_copies(s: Seq<u16>, a: int, b: int)
    requires
        0 <= a < b < s.len(),
        s[a] == s[b],
    ensures
        s.to_multiset().count(s[a]) >= 2,
{
    broadcast use vstd::seq_lib::group_to_multiset_ensures;

    let s1 = s.remove(b);
    assert(s1[a] == s[a]);
    assert(s1.contains(s[a]));
    assert(s1.to_multiset().count(s[a]) > 0);
}

/// In a strictly ascending sequence every value occurs at most once.
proof fn lemma_strict_single(s: Seq<u16>, x: u16)
    requires
        strictly_ascending(s),
    ensures
        s.to_multiset().count(x) <= 1,
    decreases s.len(),
{
    broadcast use vstd::seq_lib::group_to_multiset_ensures;

    if s.len() > 0 {
        let t = s.drop_last();
        assert(strictly_ascending(t)) by {
            assert forall|i: int, j: int| 0 <= i < j < t.len() implies #[trigger] t[i] < #[trigger] t[j] by {
                assert(t[i] == s[i] && t[j] == s[j]);
            }
        }
        lemma_strict_single(t, x);
        assert(t.push(s.last()) =~= s);
        if x == s.last() {
            assert(!t.contains(x)) by {
                if t.contains(x) {
                    let i = choose|i: int| 0 <= i < t.len() && t[i] == x;
                    assert(s[i] < s[s.len() - 1]);
                }
            }
        }
    }
}

} // verus!
