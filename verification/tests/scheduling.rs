use satellite_constellation_system::collision_predictor::{analysis_cycle_pairs, analysis_pairs};
use satellite_constellation_system::orbit_optimizer_service::{
    distinct_planes, island_population_size, is_migration_generation, migration_plan, plane_members,
    plane_of,
};

#[test]
fn pairs_cover_every_pair_once_in_loop_order() {
    let ids = vec![4u16, 9, 2, 7];
    let pairs = analysis_pairs(&ids);
    assert_eq!(
        pairs,
        vec![(4, 9), (4, 2), (4, 7), (9, 2), (9, 7), (2, 7)]
    );
}

#[test]
fn fewer_than_two_satellites_give_no_pairs() {
    assert!(analysis_pairs(&vec![]).is_empty());
    assert!(analysis_pairs(&vec![17u16]).is_empty());
}

#[test]
fn eighty_satellites_give_3160_pairs() {
    let ids: Vec<u16> = (0..80).collect();
    assert_eq!(analysis_pairs(&ids).len(), 80 * 79 / 2);
}

#[test]
fn island_sizes_share_the_population() {
    assert_eq!(island_population_size(100, 4), 25);
    assert_eq!(island_population_size(10, 3), 3);
    assert_eq!(island_population_size(2, 5), 1);
    assert_eq!(island_population_size(0, 1), 1);
}

#[test]
fn migration_happens_every_interval_with_several_islands() {
    assert!(!is_migration_generation(0, 5, 4));
    assert!(is_migration_generation(4, 5, 4));
    assert!(is_migration_generation(9, 5, 4));
    assert!(!is_migration_generation(4, 5, 1));
    assert!(is_migration_generation(0, 1, 2));
}

#[test]
fn migration_plan_is_a_ring() {
    let plan = migration_plan(3, &vec![10, 2, 10]);
    let steps: Vec<(usize, usize, usize)> =
        plan.iter().map(|s| (s.source, s.target, s.count)).collect();
    assert_eq!(steps, vec![(0, 1, 2), (1, 2, 2), (2, 0, 3)]);
    let mut targets: Vec<usize> = plan.iter().map(|s| s.target).collect();
    targets.sort();
    assert_eq!(targets, vec![0, 1, 2]);
}

#[test]
fn migration_plan_single_island_sends_to_itself() {
    let plan = migration_plan(5, &vec![4]);
    assert_eq!(plan.len(), 1);
    assert_eq!((plan[0].source, plan[0].target, plan[0].count), (0, 0, 4));
    assert!(migration_plan(2, &vec![]).is_empty());
}

#[test]
fn sixteen_satellites_per_plane() {
    assert_eq!(plane_of(0), 0);
    assert_eq!(plane_of(15), 0);
    assert_eq!(plane_of(16), 1);
    assert_eq!(plane_of(41), 2);
    assert_eq!(plane_of(79), 4);
}

#[test]
fn plane_members_are_sorted() {
    let ids = vec![40u16, 3, 33, 17, 35, 1, 32];
    assert_eq!(plane_members(&ids, 2), vec![32, 33, 35, 40]);
    assert_eq!(plane_members(&ids, 0), vec![1, 3]);
    assert_eq!(plane_members(&ids, 1), vec![17]);
    assert!(plane_members(&ids, 3).is_empty());
}

#[test]
fn distinct_planes_ascending() {
    let ids = vec![70u16, 3, 33, 17, 35, 1];
    assert_eq!(distinct_planes(&ids), vec![0, 1, 2, 4]);
    assert!(distinct_planes(&vec![]).is_empty());
}

#[test]
fn cycle_skipped_below_two_satellites() {
    assert!(analysis_cycle_pairs(&vec![]).is_none());
    assert!(analysis_cycle_pairs(&vec![3u16]).is_none());
    assert_eq!(analysis_cycle_pairs(&vec![3u16, 5]), Some(vec![(3, 5)]));
}

#[test]
fn planes_cover_every_satellite_once() {
    let ids = vec![70u16, 3, 33, 17, 35, 1, 79, 16, 0];
    let mut gathered: Vec<u16> = Vec::new();
    for p in distinct_planes(&ids) {
        gathered.extend(plane_members(&ids, p));
    }
    let mut expected = ids.clone();
    expected.sort();
    assert_eq!(gathered, expected);
}
