use rustproxy::config::Strategy;
use rustproxy::health::{probe_passed, probe_targets, record_round, ProbeReply};
use rustproxy::metrics::{Family, Kind, MetricOp, MetricsPage};
use rustproxy::pool::BackendPool;
use rustproxy::proxy::{
    abandon, begin, dispatch, finish, Begin, Forward, ProxyError, Refusal, Upstream,
};

fn pool_of(addrs: &[&str]) -> BackendPool {
    BackendPool::from_addrs(addrs.iter().map(|a| a.to_string()).collect(), Strategy::RoundRobin)
}

fn forwarded(begin: Begin) -> Forward {
    match begin {
        Begin::Forward(forward) => forward,
        Begin::Refuse(refusal) => panic!("refused: {refusal:?}"),
    }
}

fn refused(begin: Begin) -> Refusal {
    match begin {
        Begin::Refuse(refusal) => refusal,
        Begin::Forward(forward) => panic!("forwarded: {forward:?}"),
    }
}

#[test]
fn request_is_forwarded_and_finished() {
    let mut pool = pool_of(&["http://127.0.0.1:9001"]);
    let forward = forwarded(begin(&mut pool, Some("/x?y=1".into()), "10.0.0.7"));
    assert_eq!(forward.addr, "http://127.0.0.1:9001");
    assert_eq!(forward.target, "http://127.0.0.1:9001/x?y=1");
    assert_eq!(forward.forwarded_for.as_deref(), Some("10.0.0.7"));
    assert_eq!(forward.ops, vec![MetricOp::ActiveInc]);
    assert_eq!(pool.backend(0).active_conns(), 1);
    let end = finish(&mut pool, forward.guard, Upstream::Responded(204));
    assert_eq!(end.error, None);
    assert_eq!(
        end.ops,
        vec![MetricOp::ActiveDec, MetricOp::ObserveLatency, MetricOp::CountRequest(204)]
    );
    assert_eq!(pool.backend(0).active_conns(), 0);
}

#[test]
fn request_without_a_path_asks_for_the_root() {
    let mut pool = pool_of(&["http://h"]);
    let forward = forwarded(begin(&mut pool, None, "::1"));
    assert_eq!(forward.target, "http://h/");
    assert_eq!(forward.forwarded_for.as_deref(), Some("::1"));
}

#[test]
fn upstream_failure_is_a_bad_gateway() {
    let mut pool = pool_of(&["http://h"]);
    let forward = forwarded(begin(&mut pool, None, "::1"));
    let end = finish(&mut pool, forward.guard, Upstream::Failed);
    assert_eq!(end.error, Some(ProxyError::Upstream));
    assert_eq!(
        end.ops,
        vec![
            MetricOp::ActiveDec,
            MetricOp::ObserveLatency,
            MetricOp::CountRequest(502),
            MetricOp::CountError(ProxyError::Upstream),
        ]
    );
    assert_eq!(pool.backend(0).active_conns(), 0);
}

#[test]
fn no_backend_is_service_unavailable() {
    let mut pool = pool_of(&["http://h"]);
    pool.record_probe(0, false, 1, 1);
    let refusal = refused(begin(&mut pool, None, "::1"));
    assert_eq!(refusal.error, ProxyError::NoBackend);
    assert_eq!(refusal.addr, "");
    assert_eq!(refusal.target, "");
    assert_eq!(refusal.ops, vec![MetricOp::CountError(ProxyError::NoBackend)]);
    assert_eq!(refusal.error.status(), 503);
    assert_eq!(refusal.error.body(), "no healthy backends");
    assert_eq!(refusal.error.label(), "no_backend");
}

#[test]
fn bad_target_is_refused_and_leaves_no_connection() {
    let mut pool = pool_of(&["http://bad host"]);
    let refusal = refused(begin(&mut pool, Some("/".into()), "::1"));
    assert_eq!(refusal.error, ProxyError::BadUri);
    assert_eq!(refusal.addr, "http://bad host");
    assert_eq!(refusal.target, "http://bad host/");
    assert_eq!(
        refusal.ops,
        vec![
            MetricOp::ActiveInc,
            MetricOp::ActiveDec,
            MetricOp::CountError(ProxyError::BadUri),
        ]
    );
    assert_eq!(refusal.error.status(), 502);
    assert_eq!(refusal.error.body(), "bad target uri");
    assert_eq!(refusal.error.label(), "bad_uri");
    assert_eq!(pool.backend(0).active_conns(), 0);
    assert_eq!(ProxyError::Upstream.status(), 502);
    assert_eq!(ProxyError::Upstream.body(), "upstream error");
    assert_eq!(ProxyError::Upstream.label(), "upstream");
}

#[test]
fn dispatch_goes_by_what_it_is_told_of_the_target() {
    let mut pool = pool_of(&["a"]);
    assert_eq!(refused(dispatch(&mut pool, 0, "a/".into(), false, "::1")).error, ProxyError::BadUri);
    let forward = forwarded(dispatch(&mut pool, 0, "a/".into(), true, "1\n2"));
    assert_eq!(forward.guard.backend(), 0);
    assert_eq!(forward.forwarded_for, None);
    let forward = forwarded(dispatch(&mut pool, 0, "a/".into(), true, "a\tb ~"));
    assert_eq!(forward.forwarded_for.as_deref(), Some("a\tb ~"));
    let forward = forwarded(dispatch(&mut pool, 0, "a/".into(), true, "\u{e9}"));
    assert_eq!(forward.forwarded_for.as_deref(), Some("\u{e9}"));
    let forward = forwarded(dispatch(&mut pool, 0, "a/".into(), true, "\u{7f}"));
    assert_eq!(forward.forwarded_for, None);
    assert_eq!(pool.backend(0).active_conns(), 4);
}

#[test]
fn probes_go_to_the_health_path() {
    let pool = pool_of(&["http://a", "http://b b"]);
    let targets = probe_targets(&pool, "/health");
    assert_eq!(targets.len(), 2);
    assert_eq!(targets[0].slot, 0);
    assert_eq!(targets[0].url, "http://a/health");
    assert!(targets[0].valid);
    assert_eq!(targets[1].slot, 1);
    assert_eq!(targets[1].url, "http://b b/health");
    assert!(!targets[1].valid);
}

#[test]
fn only_success_in_time_passes() {
    assert!(probe_passed(true, ProbeReply::Status(200)));
    assert!(probe_passed(true, ProbeReply::Status(299)));
    assert!(!probe_passed(true, ProbeReply::Status(199)));
    assert!(!probe_passed(true, ProbeReply::Status(300)));
    assert!(!probe_passed(true, ProbeReply::NoReply));
    assert!(!probe_passed(false, ProbeReply::Status(200)));
}

#[test]
fn round_is_recorded_and_counted() {
    let mut pool = pool_of(&["a", "b", "c"]);
    let outcome = record_round(&mut pool, &vec![(0, true), (1, false), (2, true)], 1, 2);
    assert_eq!(outcome.healthy, 2);
    assert_eq!(outcome.changes, vec![None, Some(false), None]);
    let outcome = record_round(&mut pool, &vec![(0, true), (1, true), (2, true)], 1, 2);
    assert_eq!(outcome.healthy, 2);
    assert_eq!(outcome.changes, vec![None, None, None]);
    let outcome = record_round(&mut pool, &vec![(0, true), (1, true), (2, true)], 1, 2);
    assert_eq!(outcome.healthy, 3);
    assert_eq!(outcome.changes, vec![None, Some(true), None]);
}

#[test]
fn metric_families() {
    let all = [
        (Family::RequestsTotal, "rustproxy_requests_total", "Total proxied requests", 2),
        (Family::RequestDuration, "rustproxy_request_duration_seconds", "End-to-end proxy latency", 1),
        (Family::ActiveConnections, "rustproxy_active_connections", "In-flight requests per backend", 1),
        (
            Family::HealthyBackends,
            "rustproxy_healthy_backends",
            "Number of backends currently passing health checks",
            0,
        ),
        (Family::ErrorsTotal, "rustproxy_errors_total", "Proxy-side errors", 1),
    ];
    for (family, name, help, labels) in all {
        assert_eq!(family.name(), name);
        assert_eq!(family.help(), help);
        assert_eq!(family.labels().len(), labels);
    }
    assert_eq!(Family::RequestsTotal.labels(), vec!["backend", "status"]);
    assert_eq!(Family::ErrorsTotal.labels(), vec!["kind"]);
}

#[test]
fn metric_updates_have_their_labels() {
    let ops = [
        MetricOp::ActiveInc,
        MetricOp::ActiveDec,
        MetricOp::ObserveLatency,
        MetricOp::CountRequest(404),
        MetricOp::CountError(ProxyError::Upstream),
    ];
    for op in ops {
        assert_eq!(op.label_values("a").len(), op.family().labels().len());
    }
    assert_eq!(MetricOp::ActiveInc.label_values("a"), vec!["a"]);
    assert_eq!(MetricOp::CountRequest(404).label_values("a"), vec!["a", "404"]);
    assert_eq!(MetricOp::CountRequest(7).label_values("a"), vec!["a", "7"]);
    assert_eq!(MetricOp::CountError(ProxyError::Upstream).label_values("a"), vec!["upstream"]);
}

#[test]
fn metrics_page() {
    let page = MetricsPage::at("/metrics");
    assert_eq!(page, MetricsPage::Exposition);
    assert_eq!(page.status(), 200);
    assert_eq!(page.content_type(), Some("text/plain; version=0.0.4"));
    assert_eq!(page.fixed_body(), None);
    let page = MetricsPage::at("/");
    assert_eq!(page, MetricsPage::NotFound);
    assert_eq!(page.status(), 404);
    assert_eq!(page.content_type(), None);
    assert_eq!(page.fixed_body(), Some("not found"));
}

#[test]
fn abandoned_request_gives_back_its_connection() {
    let mut pool = pool_of(&["http://a"]);
    let forward = forwarded(begin(&mut pool, Some("/slow".into()), "10.0.0.1"));
    assert_eq!(forward.ops, vec![MetricOp::ActiveInc]);
    let slot = forward.guard.backend();
    assert_eq!(pool.backend(slot).active_conns(), 1);
    assert_eq!(abandon(&mut pool, forward.guard), vec![MetricOp::ActiveDec]);
    assert_eq!(pool.backend(slot).active_conns(), 0);
}

#[test]
fn metric_families_have_their_kinds() {
    assert_eq!(Family::RequestsTotal.kind(), Kind::Counter);
    assert_eq!(Family::RequestDuration.kind(), Kind::Histogram);
    assert_eq!(Family::ActiveConnections.kind(), Kind::Gauge);
    assert_eq!(Family::HealthyBackends.kind(), Kind::Gauge);
    assert_eq!(Family::ErrorsTotal.kind(), Kind::Counter);
    assert_eq!(MetricOp::ActiveDec.family().kind(), Kind::Gauge);
    assert_eq!(MetricOp::ObserveLatency.family().kind(), Kind::Histogram);
    assert_eq!(MetricOp::CountRequest(200).family().kind(), Kind::Counter);
}

#[test]
fn requests_side_by_side_leave_nothing_counted() {
    let mut pool = pool_of(&["http://a", "http://b"]);
    let first = forwarded(begin(&mut pool, None, "::1"));
    let second = forwarded(begin(&mut pool, None, "::1"));
    let third = forwarded(begin(&mut pool, None, "::1"));
    let (a, b) = (first.guard.backend(), second.guard.backend());
    assert_eq!(third.guard.backend(), a);
    assert_eq!(pool.backend(a).active_conns(), 2);
    assert_eq!(pool.backend(b).active_conns(), 1);

    // the pool changes while they are in flight
    assert!(pool.remove("http://a"));
    assert!(pool.add("http://c".into(), 2));
    finish(&mut pool, third.guard, Upstream::Responded(200));
    assert_eq!(pool.backend(a).active_conns(), 1);
    abandon(&mut pool, first.guard);
    pool.record_probe(b, false, 1, 1);
    finish(&mut pool, second.guard, Upstream::Failed);
    for slot in 0..pool.slot_count() {
        assert_eq!(pool.backend(slot).active_conns(), 0);
    }
}
