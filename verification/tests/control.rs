use rustproxy::admin::{add_backend, list_backends, remove_backend, set_weight, AdminError};
use rustproxy::config::{
    default_admin_listen, default_metrics_listen, BackendConfig, Config, ConfigError,
    HealthCheckConfig, Strategy,
};
use rustproxy::demo::demo_reply;
use rustproxy::loadgen::{bucket_bound, bucket_index, Stats, BUCKETS};
use rustproxy::pool::{BackendPool, ConnGuard};

fn config_with(addrs: &[&str]) -> Config {
    Config {
        listen: "0.0.0.0:8080".into(),
        metrics_listen: default_metrics_listen(),
        admin_listen: default_admin_listen(),
        strategy: Strategy::default(),
        backends: addrs.iter().map(|a| BackendConfig { addr: a.to_string() }).collect(),
        health_check: HealthCheckConfig::default(),
    }
}

#[test]
fn defaults() {
    let config = config_with(&["http://a"]);
    assert_eq!(config.metrics_listen, "0.0.0.0:9090");
    assert_eq!(config.admin_listen, "0.0.0.0:50051");
    assert_eq!(config.strategy, Strategy::RoundRobin);
    assert_eq!(config.health_check.interval_secs, 5);
    assert_eq!(config.health_check.timeout_secs, 2);
    assert_eq!(config.health_check.path, "/health");
    assert_eq!(config.health_check.fall, 3);
    assert_eq!(config.health_check.rise, 2);
}

#[test]
fn configuration_needs_a_backend() {
    assert_eq!(config_with(&[]).validate().unwrap_err(), ConfigError::NoBackends);
    assert_eq!(ConfigError::NoBackends.message(), "config needs at least one backend");
    let config = config_with(&["http://a", "http://b"]).validate().unwrap();
    assert_eq!(config.listen, "0.0.0.0:8080");
    assert_eq!(config.backend_addrs(), vec!["http://a", "http://b"]);
}

#[test]
fn control_plane_adds_lists_and_removes() {
    let mut pool = BackendPool::from_addrs(vec!["http://a".into()], Strategy::RoundRobin);
    assert_eq!(add_backend(&mut pool, "http://b".into(), 0), Ok(true));
    assert_eq!(add_backend(&mut pool, "https://c".into(), 4), Ok(true));
    assert_eq!(add_backend(&mut pool, "http://b".into(), 9), Ok(false));
    assert_eq!(add_backend(&mut pool, "ftp://d".into(), 1), Err(AdminError::InvalidAddress));
    assert_eq!(add_backend(&mut pool, "http:/".into(), 1), Err(AdminError::InvalidAddress));
    assert_eq!(
        AdminError::InvalidAddress.message(),
        "addr must start with http:// or https://"
    );
    assert!(set_weight(&mut pool, "http://a", 0));
    assert!(!set_weight(&mut pool, "http://z", 2));
    let _guard = ConnGuard::new(1, &mut pool);
    pool.record_probe(2, false, 1, 1);
    let infos = list_backends(&pool);
    assert_eq!(infos.len(), 3);
    assert_eq!((infos[0].addr.as_str(), infos[0].weight), ("http://a", 0));
    assert_eq!((infos[1].addr.as_str(), infos[1].weight), ("http://b", 1));
    assert_eq!((infos[1].healthy, infos[1].active_connections), (true, 1));
    assert_eq!((infos[2].addr.as_str(), infos[2].weight), ("https://c", 4));
    assert_eq!((infos[2].healthy, infos[2].active_connections), (false, 0));
    assert!(remove_backend(&mut pool, "http://b"));
    assert!(!remove_backend(&mut pool, "http://b"));
    assert_eq!(list_backends(&pool).len(), 2);
}

#[test]
fn latencies_fall_into_buckets() {
    assert_eq!(BUCKETS, 14);
    assert_eq!(bucket_index(0), 0);
    assert_eq!(bucket_index(100), 0);
    assert_eq!(bucket_index(101), 1);
    assert_eq!(bucket_index(1_000_000), 12);
    assert_eq!(bucket_index(1_000_001), 13);
    assert_eq!(bucket_index(u64::MAX), 13);
    let bounds: Vec<u64> = (0..BUCKETS).map(bucket_bound).collect();
    assert_eq!(
        bounds,
        vec![
            100, 250, 500, 1_000, 2_500, 5_000, 10_000, 25_000, 50_000, 100_000, 250_000, 500_000,
            1_000_000, u64::MAX,
        ]
    );
}

#[test]
fn percentiles_come_from_the_histogram() {
    let mut stats = Stats::new();
    assert_eq!(stats.total(), 0);
    for us in [50, 60, 300, 20_000] {
        stats.record_ok(us);
    }
    stats.record_err();
    assert_eq!((stats.ok(), stats.err(), stats.total()), (4, 1, 4));
    assert_eq!(stats.bucket_of_rank(0), Some(0));
    assert_eq!(stats.bucket_of_rank(2), Some(0));
    assert_eq!(stats.bucket_of_rank(3), Some(2));
    assert_eq!(stats.bucket_of_rank(4), Some(7));
    assert_eq!(stats.bucket_of_rank(5), None);
}

#[test]
fn demo_backend_greets() {
    let reply = demo_reply("backend-9001", "/x");
    assert_eq!(reply.body, "hello from backend-9001 (/x)\n");
    assert!(reply.is_plain_text);
    let reply = demo_reply("backend-9001", "/health");
    assert_eq!(reply.body, "ok");
    assert!(!reply.is_plain_text);
}
