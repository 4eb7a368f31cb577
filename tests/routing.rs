use callsim::paths::shortest_path;
use callsim::tables::{calculate_all_paths, calculate_shortest_paths, AllPathsInfo};
use callsim::topology::{Topology, TopologyError, MAX_CAPACITY, MAX_DISTANCE, NO_LINK};
use callsim::widest::find_maximum_capacity_path;

fn topology(n: usize, links: &[(usize, usize, u64, u64)]) -> Topology {
    let mut t = Topology::new(n);
    for &(a, b, d, c) in links {
        t.add_link(a, b, d, c).unwrap();
    }
    t
}

#[test]
fn add_link_is_symmetric() {
    let t = topology(3, &[(0, 2, 7, 4)]);
    assert_eq!(t.distance[0][2], 7);
    assert_eq!(t.distance[2][0], 7);
    assert_eq!(t.capacity[0][2], 4);
    assert_eq!(t.capacity[2][0], 4);
    assert_eq!(t.capacity[0][1], NO_LINK);
    assert_eq!(t.capacity[1][1], NO_LINK);
    assert_eq!(t.distance[1][1], 0);
}

#[test]
fn add_link_overwrites_earlier_values() {
    let t = topology(3, &[(0, 1, 7, 4), (1, 0, 3, 9)]);
    assert_eq!(t.distance[0][1], 3);
    assert_eq!(t.capacity[0][1], 9);
    assert_eq!(t.capacity[1][0], 9);
}

#[test]
fn add_link_rejects_bad_arguments() {
    let mut t = Topology::new(3);
    assert_eq!(t.add_link(0, 3, 1, 1), Err(TopologyError::NodeOutOfRange));
    assert_eq!(t.add_link(1, 1, 1, 1), Err(TopologyError::SelfLoop));
    assert_eq!(t.add_link(0, 1, 0, 1), Err(TopologyError::InvalidDistance));
    assert_eq!(t.add_link(0, 1, MAX_DISTANCE + 1, 1), Err(TopologyError::InvalidDistance));
    assert_eq!(t.add_link(0, 1, 1, MAX_CAPACITY + 1), Err(TopologyError::InvalidCapacity));
    assert_eq!(t.capacity[0][1], NO_LINK);
    assert_eq!(t.add_link(0, 1, MAX_DISTANCE, MAX_CAPACITY), Ok(()));
}

#[test]
fn shortest_path_prefers_lower_distance() {
    // 0-1-2 costs 2, the direct link 0-2 costs 5
    let t = topology(3, &[(0, 1, 1, 1), (1, 2, 1, 1), (0, 2, 5, 1)]);
    assert_eq!(shortest_path(&t, &t.capacity, 0, 0, 2), Some(vec![0, 1, 2]));
    assert_eq!(shortest_path(&t, &t.capacity, 0, 2, 0), Some(vec![2, 1, 0]));
}

#[test]
fn shortest_path_skips_links_below_threshold() {
    let t = topology(3, &[(0, 1, 1, 1), (1, 2, 1, 0), (0, 2, 5, 1)]);
    assert_eq!(shortest_path(&t, &t.capacity, 1, 0, 2), Some(vec![0, 2]));
    assert_eq!(shortest_path(&t, &t.capacity, 2, 0, 2), None);
}

#[test]
fn shortest_path_uses_zero_capacity_links_at_threshold_zero() {
    let t = topology(3, &[(0, 1, 1, 0), (1, 2, 1, 0)]);
    assert_eq!(shortest_path(&t, &t.capacity, 0, 0, 2), Some(vec![0, 1, 2]));
}

#[test]
fn widest_path_maximizes_bottleneck() {
    // 0-1 capacity 5, 1-2 capacity 2; the shorter direct 0-2 has capacity 1
    let t = topology(3, &[(0, 1, 3, 5), (1, 2, 3, 2), (0, 2, 1, 1)]);
    assert_eq!(find_maximum_capacity_path(&t, &t.capacity, 0, 0, 2), Some(vec![0, 1, 2]));
    assert_eq!(shortest_path(&t, &t.capacity, 0, 0, 2), Some(vec![0, 2]));
}

#[test]
fn widest_path_breaks_ties_by_distance() {
    // two routes of bottleneck 4: 0-1-3 of length 10 and 0-2-3 of length 4;
    // 0-3 directly has capacity 1
    let t = topology(
        4,
        &[(0, 1, 5, 4), (1, 3, 5, 9), (0, 2, 2, 4), (2, 3, 2, 4), (0, 3, 1, 1)],
    );
    assert_eq!(find_maximum_capacity_path(&t, &t.capacity, 0, 0, 3), Some(vec![0, 2, 3]));
}

#[test]
fn widest_path_respects_floor() {
    let t = topology(3, &[(0, 1, 1, 0), (1, 2, 1, 3)]);
    assert_eq!(find_maximum_capacity_path(&t, &t.capacity, 0, 0, 2), Some(vec![0, 1, 2]));
    assert_eq!(find_maximum_capacity_path(&t, &t.capacity, 1, 0, 2), None);
}

#[test]
fn no_link_anywhere_gives_no_route() {
    let t = Topology::new(4);
    assert_eq!(shortest_path(&t, &t.capacity, 0, 0, 3), None);
    assert_eq!(find_maximum_capacity_path(&t, &t.capacity, 0, 0, 3), None);
}

#[test]
fn tables_hold_routes_for_every_pair() {
    let t = topology(4, &[(0, 1, 3, 5), (1, 2, 3, 2), (0, 2, 1, 1)]);
    let widest = calculate_all_paths(&t);
    let shortest = calculate_shortest_paths(&t);
    assert_eq!(widest.get_path(0, 2), &Some(vec![0, 1, 2]));
    assert_eq!(shortest.get_path(0, 2), &Some(vec![0, 2]));
    assert_eq!(widest.get_path(2, 0), &Some(vec![2, 1, 0]));
    assert_eq!(widest.get_path(1, 1), &None);
    assert_eq!(widest.get_path(0, 3), &None);
    assert_eq!(shortest.get_path(3, 0), &None);
}

#[test]
fn new_table_is_empty() {
    let a = AllPathsInfo::new(3);
    for s in 0..3 {
        for d in 0..3 {
            assert_eq!(a.get_path(s, d), &None);
        }
    }
}

#[test]
fn load_applies_links_in_order() {
    let t = Topology::load(4, &vec![(0, 1, 2, 3), (2, 3, 1, 1), (1, 0, 5, 6)]).unwrap();
    assert_eq!(t.distance[0][1], 5);
    assert_eq!(t.capacity[1][0], 6);
    assert_eq!(t.capacity[3][2], 1);
    assert_eq!(t.capacity[0][2], NO_LINK);
    assert_eq!(t.distance[0][2], 0);
}

#[test]
fn load_reports_first_bad_link() {
    assert_eq!(
        Topology::load(3, &vec![(0, 1, 1, 1), (1, 1, 1, 1), (0, 7, 1, 1)]).err(),
        Some(TopologyError::SelfLoop)
    );
    assert_eq!(
        Topology::load(3, &vec![(0, 1, 0, 1)]).err(),
        Some(TopologyError::InvalidDistance)
    );
    assert!(Topology::load(3, &vec![]).is_ok());
}

#[test]
fn no_positive_capacity_gives_no_static_route() {
    let t = topology(3, &[(0, 1, 1, 0), (1, 2, 1, 0)]);
    assert_eq!(find_maximum_capacity_path(&t, &t.capacity, 0, 0, 2), None);
    let widest = calculate_all_paths(&t);
    let shortest = calculate_shortest_paths(&t);
    for s in 0..3 {
        for d in 0..3 {
            assert_eq!(widest.get_path(s, d), &None);
            assert_eq!(shortest.get_path(s, d), &None);
        }
    }
}
