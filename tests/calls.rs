use callsim::ledger::Ledger;
use callsim::lifecycle::Replication;
use callsim::simulation::{draw_request, pair_from_draws, run_replication, simulate, Router, Strategy};
use callsim::topology::Topology;

const ALL: [Strategy; 4] = [
    Strategy::StaticShortest,
    Strategy::OnDemandShortest,
    Strategy::StaticWidest,
    Strategy::OnDemandWidest,
];

fn topology(n: usize, links: &[(usize, usize, u64, u64)]) -> Topology {
    let mut t = Topology::new(n);
    for &(a, b, d, c) in links {
        t.add_link(a, b, d, c).unwrap();
    }
    t
}

fn loss_rate(attempts: u64, successes: u64) -> f64 {
    (attempts - successes) as f64 / attempts as f64
}

#[test]
fn line_of_two_links_window_one_loses_half() {
    let t = topology(3, &[(0, 1, 1, 1), (1, 2, 1, 1)]);
    for strategy in ALL {
        let router = Router::new(&t, strategy);
        let (rep, outcomes) = simulate(&t, &router, 1, &vec![(0, 2), (0, 2)]);
        assert_eq!(outcomes, vec![true, false]);
        assert_eq!(rep.attempts, 2);
        assert_eq!(rep.successes, 1);
        assert_eq!(loss_rate(rep.attempts, rep.successes), 0.5);
    }
}

#[test]
fn unreachable_node_is_always_blocked() {
    let t = topology(6, &[(0, 1, 1, 3), (1, 2, 1, 3), (3, 4, 1, 3)]);
    for strategy in ALL {
        let router = Router::new(&t, strategy);
        let (rep, outcomes) = simulate(&t, &router, 3, &vec![(0, 5), (0, 5), (0, 2), (0, 5)]);
        assert_eq!(outcomes, vec![false, false, true, false]);
        assert_eq!(rep.successes, 1);
    }
}

#[test]
fn loss_does_not_fall_as_window_grows() {
    let t = topology(2, &[(0, 1, 1, 1)]);
    let requests = vec![(0, 1); 12];
    for strategy in ALL {
        let router = Router::new(&t, strategy);
        let mut last = 0.0;
        for window in 1..6 {
            let (rep, _) = simulate(&t, &router, window, &requests);
            let loss = loss_rate(rep.attempts, rep.successes);
            assert!(loss >= last);
            last = loss;
        }
        let (rep, outcomes) = simulate(&t, &router, 1, &requests);
        assert_eq!(rep.successes, 6);
        assert_eq!(outcomes[0..4], [true, false, true, false]);
    }
}

#[test]
fn ledger_stays_symmetric_and_bounded() {
    let t = topology(4, &[(0, 1, 1, 2), (1, 2, 1, 1), (2, 3, 1, 2), (0, 3, 5, 1)]);
    let router = Router::new(&t, Strategy::OnDemandShortest);
    let mut rep = Replication::new(&t, 3);
    let requests = [(0, 2), (1, 3), (0, 3), (3, 1), (2, 0), (0, 1), (1, 2)];
    for &(s, d) in requests.iter() {
        rep.process_request(&t, &router, s, d);
        for i in 0..4 {
            for j in 0..4 {
                let a = rep.ledger.available[i][j];
                assert_eq!(a, rep.ledger.available[j][i]);
                if t.capacity[i][j] >= 0 {
                    assert!(0 <= a && a <= t.capacity[i][j]);
                } else {
                    assert_eq!(a, -1);
                }
            }
        }
    }
    assert_eq!(rep.attempts, 7);
}

#[test]
fn drain_returns_every_unit() {
    let t = topology(4, &[(0, 1, 1, 2), (1, 2, 1, 1), (2, 3, 1, 2), (0, 3, 5, 1)]);
    for strategy in ALL {
        let router = Router::new(&t, strategy);
        let mut rep = Replication::new(&t, 5);
        for &(s, d) in [(0, 2), (1, 3), (0, 3), (3, 1)].iter() {
            rep.process_request(&t, &router, s, d);
        }
        assert_ne!(rep.ledger.available, t.capacity);
        rep.drain(&t);
        assert_eq!(rep.ledger.available, t.capacity);
        assert!(rep.records.is_empty());
    }
}

#[test]
fn reserve_and_release_move_one_unit_both_ways() {
    let t = topology(3, &[(0, 1, 1, 2), (1, 2, 1, 2)]);
    let mut l = Ledger::reset_ledger(&t);
    let p = vec![0, 1, 2];
    assert!(l.has_capacity(&t, &p));
    l.reserve(&t, &p);
    assert_eq!(l.available[0][1], 1);
    assert_eq!(l.available[1][0], 1);
    assert_eq!(l.available[2][1], 1);
    l.reserve(&t, &p);
    assert!(!l.has_capacity(&t, &p));
    l.release(&t, &p);
    l.release(&t, &p);
    assert_eq!(l.available, t.capacity);
    // a further release does not go beyond the total capacity
    l.release(&t, &p);
    assert_eq!(l.available, t.capacity);
}

#[test]
fn ring_releases_after_window_requests() {
    let t = topology(2, &[(0, 1, 1, 2)]);
    let router = Router::new(&t, Strategy::StaticShortest);
    let (_, outcomes) = simulate(&t, &router, 3, &vec![(0, 1); 7]);
    assert_eq!(outcomes, vec![true, true, false, false, true, true, false]);
}

#[test]
fn drawn_requests_are_distinct_nodes_in_range() {
    for _ in 0..500 {
        let (s, d) = draw_request(3);
        assert!(s < 3 && d < 3 && s != d);
    }
    let mut seen = [false; 2];
    for _ in 0..200 {
        let (s, d) = draw_request(2);
        assert_eq!(s + d, 1);
        seen[s] = true;
    }
    assert!(seen[0] && seen[1]);
}

#[test]
fn replication_counts_every_request() {
    let t = topology(4, &[(0, 1, 1, 2), (1, 2, 1, 1), (2, 3, 1, 2)]);
    for strategy in ALL {
        let router = Router::new(&t, strategy);
        let rep = run_replication(&t, &router, 4, 300);
        assert_eq!(rep.attempts, 300);
        assert!(rep.successes <= 300);
        assert!(rep.successes > 0);
    }
}

#[test]
fn no_positive_capacity_blocks_every_strategy() {
    let t = topology(3, &[(0, 1, 1, 0), (1, 2, 1, 0)]);
    for strategy in ALL {
        let router = Router::new(&t, strategy);
        let rep = Replication::new(&t, 2);
        assert_eq!(router.route(&t, &rep.ledger, 0, 2), None);
        let (rep, outcomes) = simulate(&t, &router, 2, &vec![(0, 2), (1, 0), (2, 1)]);
        assert_eq!(outcomes, vec![false, false, false]);
        assert_eq!(rep.successes, 0);
    }
}

#[test]
fn cursor_moves_one_slot_per_request() {
    let t = topology(2, &[(0, 1, 1, 1)]);
    let router = Router::new(&t, Strategy::StaticShortest);
    let mut rep = Replication::new(&t, 3);
    let mut seen = Vec::new();
    for _ in 0..7 {
        rep.process_request(&t, &router, 0, 1);
        seen.push(rep.next);
    }
    assert_eq!(seen, vec![1, 2, 0, 1, 2, 0, 1]);
    assert_eq!(rep.records.len(), 3);
}

#[test]
fn pair_from_draws_skips_the_source() {
    assert_eq!(pair_from_draws(2, 0), (2, 0));
    assert_eq!(pair_from_draws(2, 1), (2, 1));
    assert_eq!(pair_from_draws(2, 2), (2, 3));
    assert_eq!(pair_from_draws(0, 0), (0, 1));
    assert_eq!(pair_from_draws(4, 3), (4, 3));
}
