use rustproxy::backend::Backend;
use rustproxy::config::Strategy;
use rustproxy::gcd::gcd;
use rustproxy::pool::{BackendPool, ConnGuard};
use rustproxy::ring::Ring;
use rustproxy::schedule::build_schedule;

fn pick_addr(pool: &mut BackendPool) -> String {
    let slot: usize = pool.pick().unwrap();
    pool.backend(slot).addr.clone()
}

fn positions(schedule: &[usize], i: usize) -> usize {
    schedule.iter().filter(|&&x| x == i).count()
}

#[test]
fn round_robin_cycles_healthy_backends() {
    let mut pool = BackendPool::from_addrs(
        vec!["a".into(), "b".into(), "c".into()],
        Strategy::RoundRobin,
    );
    let picks: Vec<String> = (0..6).map(|_| pick_addr(&mut pool)).collect();
    assert_eq!(picks, vec!["a", "b", "c", "a", "b", "c"]);
}

#[test]
fn skips_unhealthy() {
    let mut pool = BackendPool::from_addrs(vec!["a".into(), "b".into()], Strategy::RoundRobin);
    let b = pool.snapshot()[1];
    // fall threshold 1 -> single failed probe marks it down
    pool.record_probe(b, false, 1, 1);
    for _ in 0..4 {
        assert_eq!(pick_addr(&mut pool), "a");
    }
}

#[test]
fn least_connections_prefers_idle() {
    let mut pool =
        BackendPool::from_addrs(vec!["a".into(), "b".into()], Strategy::LeastConnections);
    let a = pool.snapshot()[0];
    let _g1 = ConnGuard::new(a, &mut pool);
    let _g2 = ConnGuard::new(a, &mut pool);
    assert_eq!(pick_addr(&mut pool), "b");
}

#[test]
fn conn_guard_decrements_on_drop() {
    let mut pool = BackendPool::from_addrs(vec!["a".into()], Strategy::LeastConnections);
    let a = pool.snapshot()[0];
    {
        let g = ConnGuard::new(a, &mut pool);
        assert_eq!(pool.backend(a).active_conns(), 1);
        assert_eq!(g.backend(), a);
        g.release(&mut pool);
    }
    assert_eq!(pool.backend(a).active_conns(), 0);
}

#[test]
fn fall_rise_thresholds() {
    let mut b = Backend::new("x".into(), 1);
    assert!(b.is_healthy());
    assert_eq!(b.record_probe(false, 3, 2), None);
    assert_eq!(b.record_probe(false, 3, 2), None);
    assert_eq!(b.record_probe(false, 3, 2), Some(false));
    assert!(!b.is_healthy());
    assert_eq!(b.record_probe(true, 3, 2), None);
    assert_eq!(b.record_probe(true, 3, 2), Some(true));
    assert!(b.is_healthy());
}

#[test]
fn no_healthy_backends_returns_none() {
    let mut pool = BackendPool::from_addrs(vec!["a".into()], Strategy::RoundRobin);
    let a = pool.snapshot()[0];
    pool.record_probe(a, false, 1, 1);
    assert!(pool.pick().is_none());
}

#[test]
fn add_remove() {
    let mut pool = BackendPool::from_addrs(vec!["a".into()], Strategy::RoundRobin);
    assert!(pool.add("b".into(), 1));
    assert!(!pool.add("b".into(), 1));
    assert_eq!(pool.snapshot().len(), 2);
    assert!(pool.remove("a"));
    assert!(!pool.remove("a"));
    assert_eq!(pool.snapshot().len(), 1);
}

/// Weighted round robin hands out picks in proportion to weight, and the
/// schedule is smooth (no long contiguous run of the heavy backend).
#[test]
fn weighted_distribution_matches_weights() {
    let mut pool = BackendPool::new(vec![("a".into(), 3), ("b".into(), 1)], Strategy::RoundRobin);
    let mut a = 0;
    let mut b = 0;
    for _ in 0..400 {
        match pick_addr(&mut pool).as_str() {
            "a" => a += 1,
            "b" => b += 1,
            _ => unreachable!(),
        }
    }
    // exact 3:1 over a whole number of cycles
    assert_eq!(a, 300);
    assert_eq!(b, 100);
}

#[test]
fn set_weight_shifts_traffic() {
    let mut pool = BackendPool::new(vec![("a".into(), 1), ("b".into(), 1)], Strategy::RoundRobin);
    // drain b entirely -> all traffic to a
    assert!(pool.set_weight("b", 0));
    for _ in 0..10 {
        assert_eq!(pick_addr(&mut pool), "a");
    }
    assert!(!pool.set_weight("missing", 5));
}

#[test]
fn weight_zero_backend_is_drained_but_still_listed() {
    let mut pool = BackendPool::new(vec![("a".into(), 0), ("b".into(), 1)], Strategy::RoundRobin);
    // a is still a member (shows up in snapshot / admin list) but takes no traffic
    assert_eq!(pool.snapshot().len(), 2);
    for _ in 0..10 {
        assert_eq!(pick_addr(&mut pool), "b");
    }
}

#[test]
fn schedule_is_smooth_not_bursty() {
    // 5:1 should interleave, not emit aaaaa then b
    let sched = build_schedule(&[5, 1]);
    assert_eq!(sched.len(), 6);
    // the single b must not sit at either end of a 5-long run of a
    let b_pos = sched.iter().position(|&i| i == 1).unwrap();
    assert!(b_pos > 0 && b_pos < 5, "b landed at {b_pos}, schedule not smooth");
}

#[test]
fn exact_schedules() {
    assert_eq!(build_schedule(&[]), Vec::<usize>::new());
    assert_eq!(build_schedule(&[5, 1]), vec![0, 0, 0, 1, 0, 0]);
    assert_eq!(build_schedule(&[5, 1, 1]), vec![0, 0, 1, 0, 2, 0, 0]);
    assert_eq!(build_schedule(&[0, 0, 0]), vec![0, 1, 2]);
    assert_eq!(build_schedule(&[0, 7]), vec![1]);
}

#[test]
fn only_the_ratio_of_weights_matters() {
    assert_eq!(build_schedule(&[200, 100]), build_schedule(&[2, 1]));
    assert_eq!(build_schedule(&[200, 100]).len(), 3);
    assert_eq!(build_schedule(&[u32::MAX, u32::MAX]), vec![0, 1]);
}

#[test]
fn schedule_is_proportional_and_never_far_ahead() {
    let weights: [u32; 4] = [6, 0, 9, 15];
    let shares: [usize; 4] = [2, 0, 3, 5];
    let order = build_schedule(&weights);
    assert_eq!(order.len(), 10);
    for i in 0..4 {
        assert_eq!(positions(&order, i), shares[i]);
        for k in 0..=10 {
            let got = positions(&order[..k], i) as i64;
            let ahead = 10 * got - (k * shares[i]) as i64;
            assert!(3 * ahead <= 2 * 10);
            assert!(-3 * ahead <= 4 * 10);
        }
    }
}

#[test]
fn gcd_of_numbers() {
    assert_eq!(gcd(12, 18), 6);
    assert_eq!(gcd(0, 5), 5);
    assert_eq!(gcd(5, 0), 5);
    assert_eq!(gcd(0, 0), 0);
    assert_eq!(gcd(17, 4), 1);
}

#[test]
fn ring_is_built_from_weights() {
    let slots = vec![
        Backend::new("a".into(), 1),
        Backend::new("gone".into(), 9),
        Backend::new("b".into(), 2),
    ];
    let ring = Ring::build(&slots, vec![0, 2]);
    assert_eq!(ring.backends, vec![0, 2]);
    assert_eq!(ring.schedule, vec![1, 0, 1]);
}

#[test]
fn picks_follow_the_ring_that_was_stored_last() {
    let mut pool = BackendPool::from_addrs(vec!["a".into()], Strategy::RoundRobin);
    assert_eq!(pool.snapshot(), vec![0]);
    pool.add("b".into(), 1);
    assert_eq!(pool.snapshot(), vec![0, 1]);
    pool.remove("a");
    assert_eq!(pool.snapshot(), vec![1]);
    assert_eq!(pick_addr(&mut pool), "b");
    pool.remove("b");
    assert_eq!(pool.pick(), None);
}

#[test]
fn removal_undoes_addition() {
    let mut pool = BackendPool::new(vec![("a".into(), 2), ("b".into(), 1)], Strategy::RoundRobin);
    let before = pool.snapshot();
    assert!(pool.add("c".into(), 5));
    assert!(pool.remove("c"));
    assert_eq!(pool.snapshot(), before);
    let picks: Vec<String> = (0..3).map(|_| pick_addr(&mut pool)).collect();
    assert_eq!(picks, vec!["a", "b", "a"]);
}

#[test]
fn removed_backend_drains_and_its_successor_starts_afresh() {
    let mut pool = BackendPool::from_addrs(vec!["a".into()], Strategy::LeastConnections);
    let old = pool.snapshot()[0];
    let guard = ConnGuard::new(old, &mut pool);
    assert!(pool.remove("a"));
    assert!(pool.add("a".into(), 1));
    let new = pool.snapshot()[0];
    assert_ne!(old, new);
    assert_eq!(pool.slot_count(), 2);
    assert_eq!(pool.backend(old).active_conns(), 1);
    assert_eq!(pool.backend(new).active_conns(), 0);
    guard.release(&mut pool);
    assert_eq!(pool.backend(old).active_conns(), 0);
    assert_eq!(pool.backend(new).active_conns(), 0);
}

#[test]
fn least_connections_takes_the_first_of_equals_and_ignores_weight() {
    let mut pool = BackendPool::new(
        vec![("a".into(), 0), ("b".into(), 7)],
        Strategy::LeastConnections,
    );
    assert_eq!(pick_addr(&mut pool), "a");
    let a = pool.snapshot()[0];
    pool.record_probe(a, false, 1, 1);
    assert_eq!(pick_addr(&mut pool), "b");
}

#[test]
fn duplicates_of_a_configuration_leave_together() {
    let mut pool = BackendPool::from_addrs(
        vec!["a".into(), "b".into(), "a".into()],
        Strategy::RoundRobin,
    );
    assert!(pool.set_weight("a", 3));
    assert_eq!(pool.backend(0).weight(), 3);
    assert_eq!(pool.backend(2).weight(), 1);
    assert!(pool.remove("a"));
    assert_eq!(pool.snapshot(), vec![1]);
}

#[test]
fn all_weights_zero_is_plain_round_robin() {
    let mut pool = BackendPool::new(vec![("a".into(), 0), ("b".into(), 0)], Strategy::RoundRobin);
    let picks: Vec<String> = (0..4).map(|_| pick_addr(&mut pool)).collect();
    assert_eq!(picks, vec!["a", "b", "a", "b"]);
}

#[test]
fn drained_backend_is_not_a_last_resort() {
    let mut pool = BackendPool::new(vec![("a".into(), 0), ("b".into(), 1)], Strategy::RoundRobin);
    pool.record_probe(1, false, 1, 1);
    assert_eq!(pool.pick(), None);
}

#[test]
fn a_good_probe_breaks_off_a_run_of_bad_ones() {
    let mut b = Backend::new("x".into(), 1);
    for _ in 0..5 {
        assert_eq!(b.record_probe(false, 3, 2), None);
        assert_eq!(b.record_probe(false, 3, 2), None);
        assert_eq!(b.record_probe(true, 3, 2), None);
    }
    assert!(b.is_healthy());
}

#[test]
fn connection_counts_wrap() {
    let mut b = Backend::new("x".into(), 4);
    assert_eq!(b.addr(), "x");
    assert_eq!(b.weight(), 4);
    b.dec_conns();
    assert_eq!(b.active_conns(), usize::MAX);
    b.inc_conns();
    assert_eq!(b.active_conns(), 0);
}

#[test]
fn added_backend_takes_traffic_at_once() {
    let mut pool = BackendPool::from_addrs(vec!["a".into()], Strategy::RoundRobin);
    assert_eq!(pick_addr(&mut pool), "a");
    assert!(pool.add("b".into(), 3));
    let picks: Vec<String> = (0..4).map(|_| pick_addr(&mut pool)).collect();
    assert_eq!(picks.iter().filter(|p| p.as_str() == "b").count(), 3);
}

#[test]
fn new_weight_takes_effect_with_the_next_pick() {
    let mut pool = BackendPool::from_addrs(vec!["a".into(), "b".into()], Strategy::RoundRobin);
    assert!(pool.set_weight("a", 3));
    let picks: Vec<String> = (0..4).map(|_| pick_addr(&mut pool)).collect();
    assert_eq!(picks, vec!["a", "a", "b", "a"]);
}

#[test]
fn equal_weights_take_turns() {
    assert_eq!(build_schedule(&[3, 3, 3]), vec![0, 1, 2]);
    assert_eq!(build_schedule(&[0, 0]), vec![0, 1]);
    let mut pool = BackendPool::new(
        vec![("a".into(), 7), ("b".into(), 7)],
        Strategy::RoundRobin,
    );
    let picks: Vec<String> = (0..4).map(|_| pick_addr(&mut pool)).collect();
    assert_eq!(picks, vec!["a", "b", "a", "b"]);
}

#[test]
fn walk_begins_anew_at_the_end_of_the_schedule() {
    let addrs = vec!["a".to_string(), "b".to_string(), "c".to_string()];
    for up in 0..3usize {
        let mut pool = BackendPool::from_addrs(addrs.clone(), Strategy::RoundRobin);
        let members = pool.snapshot();
        // only one of the three stays up, and gets every pick wherever the cursor stands
        for p in 0..3usize {
            if p != up {
                pool.record_probe(members[p], false, 1, 1);
            }
        }
        for _ in 0..7 {
            assert_eq!(pick_addr(&mut pool), addrs[up]);
        }
    }
}
