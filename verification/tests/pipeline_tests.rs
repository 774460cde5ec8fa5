use domain_searcher::config::HTTPCheckConfig;
use domain_searcher::pipeline::{queue_capacity, Engine, TokenBucket};
use domain_searcher::prober::{
    dns_gate, probe_url, status_accepted, ProbeMachine, ProbeOutcome, Scheme,
};
use domain_searcher::progress::{Progress, ShutdownSignal};

fn http_config() -> HTTPCheckConfig {
    HTTPCheckConfig {
        timeout_ms: 3000,
        retry: 0,
        method: String::new(),
        accept_status_min: 200,
        accept_status_max: 299,
        try_https_first: true,
        body_limit_bytes: 4096,
    }
}

#[test]
fn accepted_probe_is_found_and_stored() {
    let hc = http_config();
    let mut probe = ProbeMachine::new(&hc);
    probe.on_outcome(ProbeOutcome::Status { status: 200 });
    assert_eq!(probe.verdict, Some(true));

    let mut engine = Engine::new(0);
    assert!(engine.admit_candidate(0));
    engine.on_probe_completed("example.io", true);
    let (enq, chk, fnd) = engine.progress.snapshot();
    assert_eq!((enq, chk, fnd), (1, 1, 1));
    assert_eq!(engine.store.list("io"), vec!["example.io"]);
    assert_eq!(engine.last_domain, "example.io");
}

#[test]
fn rejected_probe_is_checked_but_not_stored() {
    let hc = http_config();
    let mut probe = ProbeMachine::new(&hc);
    probe.on_outcome(ProbeOutcome::Status { status: 500 });
    assert_eq!(probe.verdict, None);
    probe.on_outcome(ProbeOutcome::Status { status: 500 });
    assert_eq!(probe.verdict, Some(false));

    let mut engine = Engine::new(0);
    assert!(engine.admit_candidate(0));
    engine.on_probe_completed("example.io", false);
    let (enq, chk, fnd) = engine.progress.snapshot();
    assert_eq!((enq, chk, fnd), (1, 1, 0));
    assert!(engine.store.list_all().is_empty());
}

#[test]
fn scheme_order_follows_preference() {
    let hc = http_config();
    let probe = ProbeMachine::new(&hc);
    assert_eq!(probe.current_scheme(), Scheme::Https);
    let mut probe = probe;
    probe.on_outcome(ProbeOutcome::TransportError);
    assert_eq!(probe.verdict, None);
    assert_eq!(probe.current_scheme(), Scheme::Http);

    let mut hc2 = http_config();
    hc2.try_https_first = false;
    let probe2 = ProbeMachine::new(&hc2);
    assert_eq!(probe2.current_scheme(), Scheme::Http);
}

#[test]
fn retries_extend_the_attempt_budget() {
    let mut hc = http_config();
    hc.retry = 1;
    let mut probe = ProbeMachine::new(&hc);
    for _ in 0..3 {
        probe.on_outcome(ProbeOutcome::TransportError);
        assert_eq!(probe.verdict, None);
    }
    probe.on_outcome(ProbeOutcome::TransportError);
    assert_eq!(probe.verdict, Some(false));
}

#[test]
fn status_range_is_inclusive() {
    let hc = http_config();
    assert!(status_accepted(&hc, 200));
    assert!(status_accepted(&hc, 299));
    assert!(!status_accepted(&hc, 199));
    assert!(!status_accepted(&hc, 300));
}

#[test]
fn probe_urls() {
    assert_eq!(probe_url(Scheme::Https, "a.io"), "https://a.io/");
    assert_eq!(probe_url(Scheme::Http, "a.io"), "http://a.io/");
}

#[test]
fn dns_gate_needs_an_address() {
    assert!(dns_gate(1));
    assert!(!dns_gate(0));
}

#[test]
fn rate_limit_grants_at_most_one_period() {
    let mut bucket = TokenBucket::new(5);
    let mut granted = 0;
    for _ in 0..20 {
        if bucket.try_acquire() {
            granted += 1;
        }
    }
    assert_eq!(granted, 5);
    bucket.refill();
    assert!(bucket.try_acquire());
}

#[test]
fn queue_capacity_is_twice_concurrency() {
    assert_eq!(queue_capacity(4), 8);
    assert_eq!(queue_capacity(1), 2);
    assert_eq!(queue_capacity(0), 1);
}

#[test]
fn cap_limits_admission() {
    let mut engine = Engine::new(2);
    assert!(engine.admit_candidate(2));
    assert!(engine.admit_candidate(2));
    assert!(!engine.admit_candidate(2));
    let (enq, _, _) = engine.progress.snapshot();
    assert_eq!(enq, 2);
}

#[test]
fn counters_stay_ordered() {
    let mut engine = Engine::new(0);
    let mut last = (0i64, 0i64, 0i64);
    let hits = [true, false, true];
    for (i, hit) in hits.iter().enumerate() {
        assert!(engine.admit_candidate(0));
        engine.on_probe_completed(&format!("d{}.io", i), *hit);
        let cur = engine.progress.snapshot();
        assert!(cur.0 >= last.0 && cur.1 >= last.1 && cur.2 >= last.2);
        assert!(cur.0 >= cur.1 && cur.1 >= cur.2);
        last = cur;
    }
    assert_eq!(last, (3, 3, 2));
}

#[test]
fn progress_counters() {
    let mut p = Progress::new(-5);
    assert_eq!(p.total_planned(), 0);
    p.inc_enqueued();
    p.inc_checked();
    p.inc_found();
    assert_eq!(p.snapshot(), (1, 1, 1));
    p.set_initial(10, 8, 2, 100);
    assert_eq!(p.snapshot(), (10, 8, 2));
    assert_eq!(p.total_planned(), 100);
}

#[test]
fn shutdown_signal_latches() {
    let mut s = ShutdownSignal::new();
    assert!(!s.is_triggered());
    s.trigger();
    assert!(s.is_triggered());
}
