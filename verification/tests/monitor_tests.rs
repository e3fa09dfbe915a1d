use ws_monitor::monitor::{classify, observe, CounterPair, MonitorConfig, ProbeEvent, ProbeOutcome};

#[test]
fn classify_response_is_success() {
    let event = ProbeEvent::ResponseReceived(String::from("0xabc123"));
    assert_eq!(classify(&event), ProbeOutcome::Success);
}

#[test]
fn classify_connect_failure_is_failure() {
    assert_eq!(classify(&ProbeEvent::ConnectFailed), ProbeOutcome::Failure);
}

#[test]
fn classify_request_failure_is_failure() {
    assert_eq!(classify(&ProbeEvent::RequestFailed), ProbeOutcome::Failure);
}

#[test]
fn counters_start_at_zero() {
    let counters = CounterPair::new();
    assert_eq!(counters.success, 0);
    assert_eq!(counters.failure, 0);
}

#[test]
fn successful_probe_increments_success_only() {
    let mut counters = CounterPair::new();
    let outcome = observe(
        &mut counters,
        &ProbeEvent::ResponseReceived(String::from("0xabc123")),
    );
    assert_eq!(outcome, ProbeOutcome::Success);
    assert_eq!(counters.success, 1);
    assert_eq!(counters.failure, 0);
}

#[test]
fn connection_timeout_increments_failure_only() {
    let mut counters = CounterPair::new();
    let outcome = observe(&mut counters, &ProbeEvent::ConnectFailed);
    assert_eq!(outcome, ProbeOutcome::Failure);
    assert_eq!(counters.success, 0);
    assert_eq!(counters.failure, 1);
}

#[test]
fn request_timeout_increments_failure_only() {
    let mut counters = CounterPair::new();
    counters.record(ProbeOutcome::Success);
    let outcome = observe(&mut counters, &ProbeEvent::RequestFailed);
    assert_eq!(outcome, ProbeOutcome::Failure);
    assert_eq!(counters.success, 1);
    assert_eq!(counters.failure, 1);
}

#[test]
fn ten_consecutive_failures_then_an_eleventh_cycle() {
    let mut counters = CounterPair::new();
    for _ in 0..10 {
        observe(&mut counters, &ProbeEvent::ConnectFailed);
    }
    assert_eq!(counters.failure, 10);
    assert_eq!(counters.success, 0);
    // the prober keeps going: the next cycle is counted like any other
    observe(
        &mut counters,
        &ProbeEvent::ResponseReceived(String::from("0xfeed")),
    );
    assert_eq!(counters.failure, 10);
    assert_eq!(counters.success, 1);
}

#[test]
fn counters_account_for_every_completed_cycle() {
    let outcomes = [
        ProbeOutcome::Success,
        ProbeOutcome::Failure,
        ProbeOutcome::Failure,
        ProbeOutcome::Success,
        ProbeOutcome::Success,
    ];
    let mut counters = CounterPair::new();
    let mut last_success = 0u64;
    let mut last_failure = 0u64;
    for (n, outcome) in outcomes.iter().enumerate() {
        counters.record(*outcome);
        // each counter is monotonically non-decreasing
        assert!(counters.success >= last_success);
        assert!(counters.failure >= last_failure);
        last_success = counters.success;
        last_failure = counters.failure;
        // the totals account for every completed cycle
        assert_eq!(counters.success + counters.failure, n as u64 + 1);
    }
    assert_eq!(counters.success, 3);
    assert_eq!(counters.failure, 2);
}

#[test]
fn config_rejects_empty_target() {
    assert!(MonitorConfig::new(String::new(), 60, 5, 5).is_none());
}

#[test]
fn config_keeps_its_fields() {
    let config = MonitorConfig::new(String::from("wss://example.org"), 60, 5, 7).unwrap();
    assert_eq!(config.target, "wss://example.org");
    assert_eq!(config.interval_secs, 60);
    assert_eq!(config.connection_timeout_secs, 5);
    assert_eq!(config.request_timeout_secs, 7);
}
